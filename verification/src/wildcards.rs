//! What the wildcards of a key pattern match, and what its groups stand for.
use crate::pattern::{
    accepts, alternatives_of, as_items, atom_spans, blank, captures_of, closed_at, closing_brace,
    dot, ends, ends_are_spans, flush, group_count_of, is_plain, item_spans, items_from, items_of,
    items_span, no_dot, opened, walk, walk_alternatives, walk_ends, Atom, Item, Spans,
};
use vstd::prelude::*;
use vstd::utf8::{
    char_is_scalar, char_u32_cast, decode_utf8, decode_utf8_encode_utf8, encode_scalar, encode_utf8,
    encode_utf8_decode_utf8, encode_utf8_first_scalar, encode_utf8_valid_utf8, is_continuation_byte,
    length_of_first_scalar, pop_first_scalar, valid_first_scalar, valid_utf8,
};

verus! {

// -------------------------------------------------------------------- the bytes

/// Two texts in a row are encoded one behind the other.
pub proof fn encoded_in_a_row(a: Seq<char>, b: Seq<char>)
    ensures
        encode_utf8(a + b) == encode_utf8(a) + encode_utf8(b),
    decreases a.len(),
{
    if a.len() == 0 {
        assert(a + b =~= b);
        assert(encode_utf8(a) + encode_utf8(b) =~= encode_utf8(b));
    } else {
        encoded_in_a_row(a.drop_first(), b);
        assert((a + b).drop_first() =~= a.drop_first() + b);
        assert(encode_utf8(a + b) =~= encode_utf8(a) + encode_utf8(b));
    }
}

/// What follows an encoded text in valid bytes is valid.
proof fn rest_is_valid(a: Seq<char>, b: Seq<u8>)
    requires
        valid_utf8(encode_utf8(a) + b),
    ensures
        valid_utf8(b),
    decreases a.len(),
{
    let first = encode_utf8(a);
    let all = first + b;
    if a.len() == 0 {
        assert(all =~= b);
    } else {
        encode_utf8_first_scalar(a);
        let n = length_of_first_scalar(first);
        let rest = encode_utf8(a.drop_first());
        assert(first =~= encode_scalar(a[0] as u32) + rest);
        assert(all[0] == first[0]);
        assert(length_of_first_scalar(all) == n);
        assert(pop_first_scalar(all) =~= rest + b);
        rest_is_valid(a.drop_first(), b);
    }
}

/// What stands in front of an encoded text in valid bytes is valid.
proof fn front_is_valid(a: Seq<u8>, b: Seq<u8>)
    requires
        valid_utf8(a + b),
        b.len() > 0 ==> !is_continuation_byte(b[0]),
    ensures
        valid_utf8(a),
    decreases a.len(),
{
    let all = a + b;
    if a.len() > 0 {
        assert(all[0] == a[0]);
        let n = length_of_first_scalar(all);
        if n > a.len() {
            assert(all[a.len() as int] == b[0]);
        }
        assert(forall|i: int| 0 <= i < a.len() ==> all[i] == a[i]);
        assert(valid_first_scalar(a));
        assert(pop_first_scalar(all) =~= pop_first_scalar(a) + b);
        front_is_valid(pop_first_scalar(a), b);
    }
}

/// Bytes between two encoded texts, in a key, encode a text.
proof fn middle_is_a_text(key: Seq<char>, p: Seq<char>, m: Seq<u8>, q: Seq<char>)
    requires
        encode_utf8(key) == encode_utf8(p) + m + encode_utf8(q),
    ensures
        valid_utf8(m),
        encode_utf8(decode_utf8(m)) == m,
        key == p + decode_utf8(m) + q,
{
    let tail = m + encode_utf8(q);
    encode_utf8_valid_utf8(key);
    assert(encode_utf8(key) =~= encode_utf8(p) + tail);
    rest_is_valid(p, tail);
    if q.len() > 0 {
        encode_utf8_first_scalar(q);
    }
    front_is_valid(m, encode_utf8(q));
    decode_utf8_encode_utf8(m);
    let text = decode_utf8(m);
    encoded_in_a_row(p, text);
    encoded_in_a_row(p + text, q);
    encode_utf8_decode_utf8(key);
    encode_utf8_decode_utf8(p + text + q);
}

proof fn high_bytes_are_no_dots(c: u32)
    ensures
        (0xC0u8 | ((c >> 6) & 0x1F) as u8) >= 0x80,
        (0xE0u8 | ((c >> 12) & 0x0F) as u8) >= 0x80,
        (0xF0u8 | ((c >> 18) & 0x7) as u8) >= 0x80,
        (0x80u8 | (c & 0x3F) as u8) >= 0x80,
        (0x80u8 | ((c >> 6) & 0x3F) as u8) >= 0x80,
        (0x80u8 | ((c >> 12) & 0x3F) as u8) >= 0x80,
{
    let a = ((c >> 6) & 0x1F) as u8;
    let b = ((c >> 12) & 0x0F) as u8;
    let d = ((c >> 18) & 0x7) as u8;
    let e = (c & 0x3F) as u8;
    let f = ((c >> 6) & 0x3F) as u8;
    let g = ((c >> 12) & 0x3F) as u8;
    assert((0xC0u8 | a) >= 0x80) by (bit_vector);
    assert((0xE0u8 | b) >= 0x80) by (bit_vector);
    assert((0xF0u8 | d) >= 0x80) by (bit_vector);
    assert((0x80u8 | e) >= 0x80) by (bit_vector);
    assert((0x80u8 | f) >= 0x80) by (bit_vector);
    assert((0x80u8 | g) >= 0x80) by (bit_vector);
}

/// A dot in the bytes of a text is a dot in the text.
proof fn dots_are_encoded_as_dots(m: Seq<char>)
    ensures
        no_dot(encode_utf8(m), 0, encode_utf8(m).len() as int) <==> !m.contains('.'),
        encode_utf8(m).len() == 0 <==> m.len() == 0,
    decreases m.len(),
{
    let bytes = encode_utf8(m);
    if m.len() > 0 {
        let c = m[0] as u32;
        let first = encode_scalar(c);
        let rest = m.drop_first();
        let tail = encode_utf8(rest);
        dots_are_encoded_as_dots(rest);
        char_is_scalar(m[0]);
        assert(c & 0x7F == c || c > 0x7F) by (bit_vector);
        high_bytes_are_no_dots(c);
        if c <= 0x7F {
            assert(c & 0x7F == c);
            assert(first[0] == c as u8);
            assert(first.len() == 1);
            char_u32_cast(m[0], c);
            char_u32_cast('.', 46);
            assert(first[0] == dot() <==> m[0] == '.');
        } else {
            assert(forall|k: int| 0 <= k < first.len() ==> first[k] >= 0x80);
        }
        assert(no_dot(first, 0, first.len() as int) <==> m[0] != '.');
        assert(bytes =~= first + tail);
        if !no_dot(bytes, 0, bytes.len() as int) {
            let k = choose|k: int| 0 <= k < bytes.len() && bytes[k] == dot();
            if k < first.len() {
                assert(first[k] == dot());
                assert(m[0] == '.');
            } else {
                assert(tail[k - first.len()] == dot());
                let j = rest.index_of('.');
                assert(m[j + 1] == '.');
            }
        }
        if m.contains('.') {
            let j = m.index_of('.');
            if j == 0 {
                let k = choose|k: int| 0 <= k < first.len() && first[k] == dot();
                assert(bytes[k] == dot());
            } else {
                assert(rest[j - 1] == '.');
                let k = choose|k: int| 0 <= k < tail.len() && tail[k] == dot();
                assert(bytes[first.len() + k] == dot());
            }
        }
    }
}


// ---------------------------------------------------------------- the wildcards

/// A plain stretch of a pattern goes into the pending literal.
pub(crate) proof fn plain_stretch(src: Seq<char>, i: int, j: int, lit: Seq<char>, group: int)
    requires
        0 <= i <= j <= src.len(),
        is_plain(src.subrange(i, j)),
    ensures
        items_from(src, i, lit, group) == items_from(src, j, lit + src.subrange(i, j), group),
    decreases j - i,
{
    if i < j {
        let part = src.subrange(i, j);
        assert(part[0] == src[i]);
        assert(src.subrange(i + 1, j) =~= part.skip(1));
        assert(is_plain(part.skip(1))) by {
            assert forall|k: int| 0 <= k < part.skip(1).len() implies #[trigger] part.skip(1)[k]
                != '*' && part.skip(1)[k] != ':' && part.skip(1)[k] != '{' by {
                assert(part.skip(1)[k] == part[k + 1]);
            }
        }
        plain_stretch(src, i + 1, j, lit.push(src[i]), group);
        assert(lit.push(src[i]) + src.subrange(i + 1, j) =~= lit + part);
    } else {
        assert(lit + src.subrange(i, j) =~= lit);
    }
}

/// A literal in front of other items stands for its own bytes.
pub(crate) proof fn literal_spans(l: Seq<char>, rest: Seq<Item>, s: Seq<u8>, i: int)
    requires
        0 <= i <= s.len(),
    ensures
        items_span(as_items(flush(l)) + rest, s, i) <==> i + encode_utf8(l).len() <= s.len()
            && s.subrange(i, i + encode_utf8(l).len()) == encode_utf8(l) && items_span(
            rest,
            s,
            i + encode_utf8(l).len(),
        ),
{
    let bytes = encode_utf8(l);
    let items = as_items(flush(l)) + rest;
    if l.len() == 0 {
        assert(items =~= rest);
        assert(s.subrange(i, i) =~= bytes);
    } else {
        assert(as_items(flush(l)) =~= seq![Item::One(Atom::Lit(bytes))]);
        assert(items.skip(1) =~= rest);
        assert(items[0] == Item::One(Atom::Lit(bytes)));
        let n = i + bytes.len();
        if items_span(items, s, i) {
            let m = choose|m: int|
                #[trigger] item_spans(items[0], s, i, m) && items_span(items.skip(1), s, m);
            assert(s.subrange(i, m).len() == m - i);
            assert(m == n);
        }
        if n <= s.len() && s.subrange(i, n) == bytes && items_span(rest, s, n) {
            assert(item_spans(items[0], s, i, n));
        }
    }
}

/// What a pattern of one wildcard between two plain texts matches.
proof fn one_wildcard(p: Seq<char>, a: Atom, q: Seq<char>, key: Seq<char>)
    ensures
        ({
            let s = encode_utf8(key);
            let n = encode_utf8(p).len() as int;
            items_span(
                as_items(flush(p)) + (seq![Item::One(a)] + as_items(flush(q))),
                s,
                0,
            ) <==> exists|j: int|
                n <= s.len() && s.subrange(0, n) == encode_utf8(p) && #[trigger] atom_spans(
                    a,
                    s,
                    n,
                    j,
                ) && s.skip(j) == encode_utf8(q)
        }),
{
    let s = encode_utf8(key);
    let n = encode_utf8(p).len() as int;
    let last = as_items(flush(q));
    let rest = seq![Item::One(a)] + last;
    let none = Seq::<Item>::empty();
    literal_spans(p, rest, s, 0);
    assert(rest.skip(1) =~= last);
    assert(last =~= last + none);
    if n <= s.len() && items_span(rest, s, n) {
        let j = choose|j: int|
            #[trigger] item_spans(rest[0], s, n, j) && items_span(rest.skip(1), s, j);
        assert(atom_spans(a, s, n, j));
        literal_spans(q, none, s, j);
        assert(s.subrange(j, s.len() as int) =~= s.skip(j));
    }
    if exists|j: int|
        n <= s.len() && s.subrange(0, n) == encode_utf8(p) && #[trigger] atom_spans(a, s, n, j)
            && s.skip(j) == encode_utf8(q) {
        let j = choose|j: int|
            n <= s.len() && s.subrange(0, n) == encode_utf8(p) && #[trigger] atom_spans(a, s, n, j)
                && s.skip(j) == encode_utf8(q);
        literal_spans(q, none, s, j);
        assert(s.subrange(j, s.len() as int) =~= s.skip(j));
        assert(item_spans(rest[0], s, n, j));
    }
}

/// The text stands between the two others in the key.
pub open spec fn stands_between(key: Seq<char>, p: Seq<char>, m: Seq<char>, q: Seq<char>) -> bool {
    key == p + m + q
}

pub(crate) proof fn between_in_bytes(key: Seq<char>, p: Seq<char>, q: Seq<char>, j: int) -> (m: Seq<char>)
    requires
        encode_utf8(p).len() <= j <= encode_utf8(key).len(),
        encode_utf8(key).subrange(0, encode_utf8(p).len() as int) == encode_utf8(p),
        encode_utf8(key).skip(j) == encode_utf8(q),
    ensures
        stands_between(key, p, m, q),
        encode_utf8(m) == encode_utf8(key).subrange(encode_utf8(p).len() as int, j),
{
    let s = encode_utf8(key);
    let n = encode_utf8(p).len() as int;
    let bytes = s.subrange(n, j);
    assert(s =~= encode_utf8(p) + bytes + encode_utf8(q));
    middle_is_a_text(key, p, bytes, q);
    decode_utf8(bytes)
}

pub(crate) proof fn bytes_between(key: Seq<char>, p: Seq<char>, m: Seq<char>, q: Seq<char>)
    requires
        stands_between(key, p, m, q),
    ensures
        ({
            let s = encode_utf8(key);
            let n = encode_utf8(p).len() as int;
            let j = n + encode_utf8(m).len();
            &&& j <= s.len()
            &&& s.subrange(0, n) == encode_utf8(p)
            &&& s.subrange(n, j) == encode_utf8(m)
            &&& s.skip(j) == encode_utf8(q)
        }),
{
    let s = encode_utf8(key);
    let n = encode_utf8(p).len() as int;
    let j = n + encode_utf8(m).len();
    encoded_in_a_row(p, m);
    encoded_in_a_row(p + m, q);
    assert(s.subrange(0, n) =~= encode_utf8(p));
    assert(s.subrange(n, j) =~= encode_utf8(m));
    assert(s.skip(j) =~= encode_utf8(q));
}

/// `*` between two plain texts matches any text between them, the empty one and
/// one with dots included.
pub proof fn a_star_matches_any_text(p: Seq<char>, q: Seq<char>, key: Seq<char>)
    requires
        is_plain(p),
        is_plain(q),
    ensures
        accepts(p + "*"@ + q, key) <==> exists|m: Seq<char>| #[trigger]
            stands_between(key, p, m, q),
{
    reveal_strlit("*");
    let src = p + "*"@ + q;
    let n = p.len() as int;
    let none = Seq::<char>::empty();
    assert(src.subrange(0, n) =~= p);
    plain_stretch(src, 0, n, none, 0);
    assert(none + p =~= p);
    assert(src.subrange(n + 1, src.len() as int) =~= q);
    plain_stretch(src, n + 1, src.len() as int, none, 0);
    assert(none + q =~= q);
    assert(q.len() > 0 ==> src[n + 1] == q[0]);
    assert(items_of(src) == as_items(flush(p)) + (seq![Item::One(Atom::Star)] + as_items(
        flush(q),
    )));
    one_wildcard(p, Atom::Star, q, key);
    let s = encode_utf8(key);
    let from = encode_utf8(p).len() as int;
    if accepts(src, key) {
        let j = choose|j: int|
            from <= s.len() && s.subrange(0, from) == encode_utf8(p) && #[trigger] atom_spans(
                Atom::Star,
                s,
                from,
                j,
            ) && s.skip(j) == encode_utf8(q);
        let m = between_in_bytes(key, p, q, j);
        assert(stands_between(key, p, m, q));
    }
    if exists|m: Seq<char>| #[trigger] stands_between(key, p, m, q) {
        let m = choose|m: Seq<char>| #[trigger] stands_between(key, p, m, q);
        bytes_between(key, p, m, q);
        assert(atom_spans(Atom::Star, s, from, from + encode_utf8(m).len()));
    }
}

/// A text that is not empty and holds no dot.
pub open spec fn is_part(m: Seq<char>) -> bool {
    m.len() > 0 && !m.contains('.')
}

proof fn part_spans(key: Seq<char>, from: int, m: Seq<char>)
    requires
        0 <= from,
        from + encode_utf8(m).len() <= encode_utf8(key).len(),
        encode_utf8(key).subrange(from, from + encode_utf8(m).len()) == encode_utf8(m),
    ensures
        atom_spans(Atom::PartialSeg, encode_utf8(key), from, from + encode_utf8(m).len())
            <==> is_part(m),
{
    let s = encode_utf8(key);
    let bytes = encode_utf8(m);
    let j = from + bytes.len();
    dots_are_encoded_as_dots(m);
    assert(no_dot(s, from, j) <==> no_dot(bytes, 0, bytes.len() as int)) by {
        let part = s.subrange(from, j);
        if no_dot(s, from, j) {
            assert forall|k: int| 0 <= k < bytes.len() implies bytes[k] != dot() by {
                assert(part[k] == s[from + k]);
            }
        }
        if no_dot(bytes, 0, bytes.len() as int) {
            assert forall|k: int| from <= k < j implies s[k] != dot() by {
                assert(part[k - from] == s[k]);
                assert(bytes[k - from] != dot());
            }
        }
    }
}

/// `*:` between two plain texts matches a text between them that is not empty
/// and holds no dot.
pub proof fn a_partial_segment_matches_a_text_without_dots(
    p: Seq<char>,
    q: Seq<char>,
    key: Seq<char>,
)
    requires
        is_plain(p),
        is_plain(q),
    ensures
        accepts(p + "*:"@ + q, key) <==> exists|m: Seq<char>| #[trigger]
            stands_between(key, p, m, q) && is_part(m),
{
    reveal_strlit("*:");
    let src = p + "*:"@ + q;
    let n = p.len() as int;
    let none = Seq::<char>::empty();
    assert(src.subrange(0, n) =~= p);
    plain_stretch(src, 0, n, none, 0);
    assert(none + p =~= p);
    assert(src.subrange(n + 2, src.len() as int) =~= q);
    plain_stretch(src, n + 2, src.len() as int, none, 0);
    assert(none + q =~= q);
    assert(src[n] == '*' && src[n + 1] == ':');
    assert(items_of(src) == as_items(flush(p)) + (seq![Item::One(Atom::PartialSeg)] + as_items(
        flush(q),
    )));
    one_wildcard(p, Atom::PartialSeg, q, key);
    let s = encode_utf8(key);
    let from = encode_utf8(p).len() as int;
    if accepts(src, key) {
        let j = choose|j: int|
            from <= s.len() && s.subrange(0, from) == encode_utf8(p) && #[trigger] atom_spans(
                Atom::PartialSeg,
                s,
                from,
                j,
            ) && s.skip(j) == encode_utf8(q);
        let m = between_in_bytes(key, p, q, j);
        part_spans(key, from, m);
        assert(stands_between(key, p, m, q) && is_part(m));
    }
    if exists|m: Seq<char>| #[trigger] stands_between(key, p, m, q) && is_part(m) {
        let m = choose|m: Seq<char>| #[trigger] stands_between(key, p, m, q) && is_part(m);
        bytes_between(key, p, m, q);
        part_spans(key, from, m);
        assert(atom_spans(Atom::PartialSeg, s, from, from + encode_utf8(m).len()));
    }
}

/// `.:` behind a plain text matches a dot and one segment behind it.
pub proof fn a_whole_segment_matches_a_segment(p: Seq<char>, key: Seq<char>)
    requires
        is_plain(p),
    ensures
        accepts(p + ".:"@, key) <==> exists|m: Seq<char>| #[trigger]
            stands_between(key, p + "."@, m, Seq::empty()) && is_part(m),
{
    reveal_strlit(".:");
    reveal_strlit(".");
    let src = p + ".:"@;
    let lit = p + "."@;
    let n = lit.len() as int;
    let none = Seq::<char>::empty();
    assert(src.subrange(0, n) =~= lit);
    assert(is_plain(lit)) by {
        assert forall|i: int| 0 <= i < lit.len() implies #[trigger] lit[i] != '*' && lit[i] != ':'
            && lit[i] != '{' by {
            if i < p.len() {
                assert(lit[i] == p[i]);
            }
        }
    }
    plain_stretch(src, 0, n, none, 0);
    assert(none + lit =~= lit);
    assert(src[n] == ':');
    assert(items_from(src, n + 1, none, 0) == as_items(flush(none)));
    assert(items_from(src, n, lit, 0) == as_items(flush(lit)) + (seq![
        Item::One(Atom::WholeSeg),
    ] + as_items(flush(none))));
    assert(items_of(src) == as_items(flush(lit)) + (seq![Item::One(Atom::WholeSeg)] + as_items(
        flush(none),
    )));
    one_wildcard(lit, Atom::WholeSeg, none, key);
    let s = encode_utf8(key);
    let from = encode_utf8(lit).len() as int;
    encoded_in_a_row(p, "."@);
    dot_is_one_byte();
    assert(encode_utf8(lit)[from - 1] == dot());
    if accepts(src, key) {
        let j = choose|j: int|
            from <= s.len() && s.subrange(0, from) == encode_utf8(lit) && #[trigger] atom_spans(
                Atom::WholeSeg,
                s,
                from,
                j,
            ) && s.skip(j) == encode_utf8(none);
        let m = between_in_bytes(key, lit, none, j);
        part_spans(key, from, m);
        assert(atom_spans(Atom::PartialSeg, s, from, j));
        assert(stands_between(key, lit, m, none) && is_part(m));
    }
    if exists|m: Seq<char>| #[trigger] stands_between(key, lit, m, none) && is_part(m) {
        let m = choose|m: Seq<char>| #[trigger] stands_between(key, lit, m, none) && is_part(m);
        bytes_between(key, lit, m, none);
        part_spans(key, from, m);
        let j = from + encode_utf8(m).len();
        assert(s.skip(j).len() == 0);
        assert(s.subrange(0, from)[from - 1] == s[from - 1]);
        assert(atom_spans(Atom::WholeSeg, s, from, j));
    }
}

proof fn dot_is_one_byte()
    ensures
        encode_utf8("."@) == seq![dot()],
{
    reveal_strlit(".");
    let text = seq!['.'];
    assert("."@ =~= text);
    assert(text.drop_first() =~= Seq::empty());
    assert(encode_utf8(Seq::empty()) =~= Seq::empty());
    assert(46u32 & 0x7F == 46) by (bit_vector);
    assert(encode_scalar('.' as u32) =~= seq![dot()]);
    assert(encode_utf8(text) =~= seq![dot()]);
}


// ------------------------------------------------------------------- the groups

/// The groups are numbered in a row, from `group` on.
pub open spec fn numbered(items: Seq<Item>, group: int) -> bool
    decreases items.len(),
{
    items.len() == 0 || match items[0] {
        Item::One(_) => numbered(items.skip(1), group),
        Item::Group(k, _) => k == group && numbered(items.skip(1), group + 1),
    }
}

proof fn numbered_behind(first: Seq<Item>, rest: Seq<Item>, group: int)
    requires
        first.len() <= 1,
        first.len() == 1 ==> first[0] is One,
        numbered(rest, group),
    ensures
        numbered(first + rest, group),
{
    let all = first + rest;
    if first.len() == 0 {
        assert(all =~= rest);
    } else {
        assert(all.skip(1) =~= rest);
    }
}

proof fn items_are_numbered(src: Seq<char>, i: int, lit: Seq<char>, group: int)
    requires
        0 <= i <= src.len(),
    ensures
        numbered(items_from(src, i, lit, group), group),
    decreases src.len() - i,
{
    let close = closing_brace(src, i);
    let first = as_items(flush(lit));
    let none = Seq::<char>::empty();
    if i >= src.len() {
        assert(first + Seq::<Item>::empty() =~= first);
        numbered_behind(first, Seq::empty(), group);
    } else if src[i] == '{' && i < close < src.len() {
        let one = Item::Group(group, alternatives_of(src.subrange(i + 1, close)));
        let rest = items_from(src, close + 1, none, group + 1);
        items_are_numbered(src, close + 1, none, group + 1);
        assert((seq![one] + rest).skip(1) =~= rest);
        numbered_behind(first, seq![one] + rest, group);
    } else if src[i] == '*' || src[i] == ':' {
        let (a, next) = if src[i] == ':' {
            (Atom::WholeSeg, i + 1)
        } else if i + 1 < src.len() && src[i + 1] == ':' {
            (Atom::PartialSeg, i + 2)
        } else {
            (Atom::Star, i + 1)
        };
        let rest = items_from(src, next, none, group);
        items_are_numbered(src, next, none, group);
        numbered_behind(seq![Item::One(a)], rest, group);
        numbered_behind(first, seq![Item::One(a)] + rest, group);
    } else {
        items_are_numbered(src, i + 1, lit.push(src[i]), group);
    }
}

/// The group stands for bytes of the key from `from` on.
pub open spec fn lies_in(span: Option<(int, int)>, from: int, length: int) -> bool {
    span matches Some((a, b)) && from <= a <= b <= length
}

/// The groups from `group` up to `count` stand for stretches of the bytes from
/// `pos` on, each behind the one before.
pub open spec fn in_a_row(f: Spans, group: int, count: int, pos: int, length: int) -> bool {
    &&& forall|k: int| group <= k < count ==> lies_in(#[trigger] f[k], pos, length)
    &&& forall|k: int|
        group <= k < count - 1 ==> (#[trigger] f[k])->Some_0.1 <= f[k + 1]->Some_0.0
}

/// What a search leaves in the groups: those before `group` as they were, but
/// for the open one, which is closed, and the others in a row behind it.
spec fn left_in_order(
    f: Spans,
    caps: Spans,
    open: Option<(int, Seq<Atom>)>,
    group: int,
    pos: int,
    length: int,
) -> bool {
    &&& f.len() == caps.len()
    &&& in_a_row(f, group, f.len() as int, pos, length)
    &&& match open {
        None => forall|k: int| 0 <= k < group ==> f[k] == #[trigger] caps[k],
        Some((own, _)) => {
            &&& forall|k: int| 0 <= k < group - 1 ==> f[k] == #[trigger] caps[k]
            &&& f[own] matches Some((a, b)) && a == caps[own]->Some_0.0 && pos <= b <= length
            &&& group < f.len() ==> f[own]->Some_0.1 <= f[group]->Some_0.0
        },
    }
}

/// A search may start: the open group is the one before `group`, and was opened
/// at or before `pos`.
spec fn may_start(
    open: Option<(int, Seq<Atom>)>,
    items: Seq<Item>,
    caps: Spans,
    group: int,
    pos: int,
) -> bool {
    &&& 0 <= group
    &&& numbered(items, group)
    &&& group + group_count_of(items) == caps.len()
    &&& open matches Some((own, _)) ==> own == group - 1 && 0 <= own && (
    caps[own] matches Some((a, _)) && 0 <= a <= pos)
}

proof fn group_count_is_not_negative(items: Seq<Item>)
    ensures
        0 <= group_count_of(items),
    decreases items.len(),
{
    if items.len() > 0 {
        group_count_is_not_negative(items.skip(1));
    }
}

proof fn walk_in_order(
    open: Option<(int, Seq<Atom>)>,
    items: Seq<Item>,
    s: Seq<u8>,
    pos: int,
    caps: Spans,
    group: int,
)
    requires
        0 <= pos <= s.len(),
        may_start(open, items, caps, group, pos),
    ensures
        walk(open, items, s, pos, caps) matches Some(f) ==> left_in_order(
            f,
            caps,
            open,
            group,
            pos,
            s.len() as int,
        ),
    decreases
            2 * items.len(),
            (match open {
                Some((_, atoms)) => 1 + atoms.len(),
                None => 0,
            }),
            0int,
{
    group_count_is_not_negative(items);
    match open {
        Some((own, atoms)) => {
            if atoms.len() == 0 {
                let closed = closed_at(caps, own, pos);
                walk_in_order(None, items, s, pos, closed, group);
                if let Some(f) = walk(None, items, s, pos, closed) {
                    assert(f[own] == closed[own]);
                    assert forall|k: int| 0 <= k < group - 1 implies f[k] == #[trigger] caps[k] by {
                        assert(closed[k] == caps[k]);
                    }
                    if group < f.len() {
                        assert(lies_in(f[group], pos, s.len() as int));
                    }
                }
            } else {
                let left = Some((own, atoms.skip(1)));
                ends_are_spans(atoms[0], s, pos);
                walk_ends_in_order(left, items, s, ends(atoms[0], s, pos), 0, caps, group, pos);
            }
        },
        None => {
            if items.len() > 0 {
                let rest = items.skip(1);
                match items[0] {
                    Item::One(a) => {
                        ends_are_spans(a, s, pos);
                        walk_ends_in_order(None, rest, s, ends(a, s, pos), 0, caps, group, pos);
                    },
                    Item::Group(own, alts) => {
                        group_count_is_not_negative(rest);
                        let inside = opened(caps, own, pos);
                        walk_alternatives_in_order(own, alts, 0, rest, s, pos, inside, group + 1);
                        if let Some(f) = walk(open, items, s, pos, caps) {
                            let length = s.len() as int;
                            assert forall|k: int| group <= k < f.len() implies lies_in(
                                #[trigger] f[k],
                                pos,
                                length,
                            ) by {
                                if k > group {
                                    assert(lies_in(f[k], pos, length));
                                }
                            }
                            assert forall|k: int| group <= k < f.len() - 1 implies (
                            #[trigger] f[k])->Some_0.1 <= f[k + 1]->Some_0.0 by {}
                            assert forall|k: int| 0 <= k < group implies f[k]
                                == #[trigger] caps[k] by {
                                assert(inside[k] == caps[k]);
                            }
                        }
                    },
                }
            }
        },
    }
}

proof fn walk_ends_in_order(
    open: Option<(int, Seq<Atom>)>,
    items: Seq<Item>,
    s: Seq<u8>,
    at: Seq<int>,
    k: int,
    caps: Spans,
    group: int,
    pos: int,
)
    requires
        0 <= k <= at.len(),
        0 <= pos <= s.len(),
        forall|i: int| 0 <= i < at.len() ==> pos <= #[trigger] at[i] <= s.len(),
        may_start(open, items, caps, group, pos),
    ensures
        walk_ends(open, items, s, at, k, caps) matches Some(f) ==> left_in_order(
            f,
            caps,
            open,
            group,
            pos,
            s.len() as int,
        ),
    decreases
            2 * items.len(),
            (match open {
                Some((_, atoms)) => 1 + atoms.len(),
                None => 0,
            }),
            1 + at.len() - k,
{
    if k < at.len() {
        walk_in_order(open, items, s, at[k], caps, group);
        walk_ends_in_order(open, items, s, at, k + 1, caps, group, pos);
        if let Some(f) = walk(open, items, s, at[k], caps) {
            assert forall|i: int| group <= i < f.len() implies lies_in(
                #[trigger] f[i],
                pos,
                s.len() as int,
            ) by {
                assert(lies_in(f[i], at[k], s.len() as int));
            }
        }
    }
}

proof fn walk_alternatives_in_order(
    own: int,
    alts: Seq<Seq<Atom>>,
    k: int,
    items: Seq<Item>,
    s: Seq<u8>,
    pos: int,
    caps: Spans,
    group: int,
)
    requires
        0 <= k <= alts.len(),
        0 <= pos <= s.len(),
        own == group - 1,
        0 <= own < caps.len(),
        caps[own] == Some((pos, pos)),
        numbered(items, group),
        group + group_count_of(items) == caps.len(),
    ensures
        walk_alternatives(own, alts, k, items, s, pos, caps) matches Some(f) ==> left_in_order(
            f,
            caps,
            Some((own, Seq::empty())),
            group,
            pos,
            s.len() as int,
        ),
    decreases 2 * items.len() + 1, 0int, 1 + alts.len() - k,
{
    if k < alts.len() {
        walk_in_order(Some((own, alts[k])), items, s, pos, caps, group);
        walk_alternatives_in_order(own, alts, k + 1, items, s, pos, caps, group);
    }
}

/// Where a pattern matches, every group takes part: it stands for a stretch of
/// the key, behind that of the group before it.
pub proof fn every_group_takes_part(source: Seq<char>, key: Seq<char>)
    requires
        captures_of(source, key) is Some,
    ensures
        captures_of(source, key)->Some_0.len() == group_count_of(items_of(source)),
        in_a_row(
            captures_of(source, key)->Some_0,
            0,
            group_count_of(items_of(source)),
            0,
            encode_utf8(key).len() as int,
        ),
{
    let items = items_of(source);
    group_count_is_not_negative(items);
    items_are_numbered(source, 0, Seq::empty(), 0);
    walk_in_order(None, items, encode_utf8(key), 0, blank(group_count_of(items)), 0);
}

} // verus!
