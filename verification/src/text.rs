//! Operations on text that the other modules share.
//!
//! Every function states its result over `Seq<char>`, the view that a string
//! has in specifications.
use vstd::prelude::*;
use vstd::utf8::encode_utf8;

verus! {

/// `String::push` of std: appends one character.
pub assume_specification[ String::push ](s: &mut String, c: char)
    ensures
        final(s)@ == old(s)@.push(c),
;

/// The texts that a sequence of strings holds.
pub open spec fn texts(v: Seq<String>) -> Seq<Seq<char>> {
    Seq::new(v.len(), |i: int| v[i]@)
}

/// Appends `s` to `v`.
pub fn push_text(v: &mut Vec<String>, s: String)
    ensures
        texts(final(v)@) == texts(old(v)@).push(s@),
        final(v)@ == old(v)@.push(s),
{
    v.push(s);
    proof {
        assert(texts(v@) =~= texts(old(v)@).push(s@));
    }
}

/// The characters of `s`, in order.
pub fn chars_of(s: &str) -> (out: Vec<char>)
    ensures
        out@ == s@,
{
    let mut out: Vec<char> = Vec::new();
    for c in it: s.chars()
        invariant
            it.seq() == s@,
            out@ == s@.take(it.index() as int),
    {
        out.push(c);
    }
    out
}

/// The text made of the characters `from..to` of `v`.
pub fn text_between(v: &Vec<char>, from: usize, to: usize) -> (out: String)
    requires
        from <= to <= v.len(),
    ensures
        out@ == v@.subrange(from as int, to as int),
{
    let mut out = String::new();
    let mut i: usize = from;
    while i < to
        invariant
            from <= i <= to <= v.len(),
            out@ == v@.subrange(from as int, i as int),
        decreases to - i,
    {
        out.push(v[i]);
        i = i + 1;
    }
    out
}

/// Whether two strings hold the same text.
pub fn same_text(a: &str, b: &str) -> (same: bool)
    ensures
        same == (a@ == b@),
{
    let x = a.as_bytes();
    let y = b.as_bytes();
    proof {
        vstd::utf8::encode_utf8_decode_utf8(a@);
        vstd::utf8::encode_utf8_decode_utf8(b@);
    }
    if x.len() != y.len() {
        return false;
    }
    let mut i: usize = 0;
    while i < x.len()
        invariant
            i <= x.len(),
            x.len() == y.len(),
            x@ == encode_utf8(a@),
            y@ == encode_utf8(b@),
            x@.take(i as int) == y@.take(i as int),
        decreases x.len() - i,
    {
        if x[i] != y[i] {
            return false;
        }
        assert(x@.take(i + 1) =~= x@.take(i as int).push(x@[i as int]));
        assert(y@.take(i + 1) =~= y@.take(i as int).push(y@[i as int]));
        i = i + 1;
    }
    assert(x@.take(i as int) =~= x@);
    assert(y@.take(i as int) =~= y@);
    true
}

// ---------------------------------------------------------------- characters

/// An ASCII capital.
pub open spec fn is_upper(c: char) -> bool {
    'A' <= c <= 'Z'
}

/// An ASCII small letter.
pub open spec fn is_lower(c: char) -> bool {
    'a' <= c <= 'z'
}

/// An ASCII digit.
pub open spec fn is_digit(c: char) -> bool {
    '0' <= c <= '9'
}

/// An ASCII letter.
pub open spec fn is_letter(c: char) -> bool {
    is_upper(c) || is_lower(c)
}

/// An ASCII letter or digit.
pub open spec fn is_alnum(c: char) -> bool {
    is_letter(c) || is_digit(c)
}

/// A character with the Unicode property White_Space.
pub open spec fn is_space(c: char) -> bool {
    let u = c as u32;
    ||| 0x9 <= u <= 0xd
    ||| u == 0x20
    ||| u == 0x85
    ||| u == 0xa0
    ||| u == 0x1680
    ||| 0x2000 <= u <= 0x200a
    ||| u == 0x2028
    ||| u == 0x2029
    ||| u == 0x202f
    ||| u == 0x205f
    ||| u == 0x3000
}

/// A character of the general category Cc.
pub open spec fn is_control(c: char) -> bool {
    let u = c as u32;
    u <= 0x1f || 0x7f <= u <= 0x9f
}

/// Whether `c` is an ASCII upper-case letter.
pub fn upper(c: char) -> (b: bool)
    ensures
        b == is_upper(c),
{
    'A' <= c && c <= 'Z'
}

/// Whether `c` is an ASCII lower-case letter.
pub fn lower(c: char) -> (b: bool)
    ensures
        b == is_lower(c),
{
    'a' <= c && c <= 'z'
}

/// Whether `c` is an ASCII digit.
pub fn digit(c: char) -> (b: bool)
    ensures
        b == is_digit(c),
{
    '0' <= c && c <= '9'
}

/// Whether `c` is an ASCII letter.
pub fn letter(c: char) -> (b: bool)
    ensures
        b == is_letter(c),
{
    upper(c) || lower(c)
}

/// Whether `c` is an ASCII letter or digit.
pub fn alnum(c: char) -> (b: bool)
    ensures
        b == is_alnum(c),
{
    letter(c) || digit(c)
}

/// Whether `c` is white space.
pub fn space(c: char) -> (b: bool)
    ensures
        b == is_space(c),
{
    let u = c as u32;
    (0x9 <= u && u <= 0xd) || u == 0x20 || u == 0x85 || u == 0xa0 || u == 0x1680 || (0x2000 <= u
        && u <= 0x200a) || u == 0x2028 || u == 0x2029 || u == 0x202f || u == 0x205f || u == 0x3000
}

/// Whether `c` is a control character.
pub fn control(c: char) -> (b: bool)
    ensures
        b == is_control(c),
{
    let u = c as u32;
    u <= 0x1f || (0x7f <= u && u <= 0x9f)
}

// ------------------------------------------------------------------ trimming

/// The text without the white space in front.
pub open spec fn trim_start_of(s: Seq<char>) -> Seq<char>
    decreases s.len(),
{
    if s.len() > 0 && is_space(s[0]) {
        trim_start_of(s.subrange(1, s.len() as int))
    } else {
        s
    }
}

/// The text without the white space behind.
pub open spec fn trim_end_of(s: Seq<char>) -> Seq<char>
    decreases s.len(),
{
    if s.len() > 0 && is_space(s[s.len() - 1]) {
        trim_end_of(s.subrange(0, s.len() - 1))
    } else {
        s
    }
}

/// `s` without the white space at its two ends.
pub open spec fn trim_of(s: Seq<char>) -> Seq<char> {
    trim_end_of(trim_start_of(s))
}

/// Where the text between `from` and `to` starts once white space is skipped.
pub fn skip_space(v: &Vec<char>, from: usize, to: usize) -> (i: usize)
    requires
        from <= to <= v.len(),
    ensures
        from <= i <= to,
        v@.subrange(i as int, to as int) == trim_start_of(v@.subrange(from as int, to as int)),
{
    let mut i: usize = from;
    while i < to && space(v[i])
        invariant
            from <= i <= to <= v.len(),
            trim_start_of(v@.subrange(from as int, to as int)) == trim_start_of(
                v@.subrange(i as int, to as int),
            ),
        decreases to - i,
    {
        assert(v@.subrange(i as int, to as int).subrange(1, to - i) =~= v@.subrange(
            i + 1,
            to as int,
        ));
        i = i + 1;
    }
    i
}

/// Where the text between `from` and `to` ends once trailing white space is
/// left out.
pub fn drop_space(v: &Vec<char>, from: usize, to: usize) -> (i: usize)
    requires
        from <= to <= v.len(),
    ensures
        from <= i <= to,
        v@.subrange(from as int, i as int) == trim_end_of(v@.subrange(from as int, to as int)),
{
    let mut i: usize = to;
    while i > from && space(v[i - 1])
        invariant
            from <= i <= to <= v.len(),
            trim_end_of(v@.subrange(from as int, to as int)) == trim_end_of(
                v@.subrange(from as int, i as int),
            ),
        decreases i,
    {
        assert(v@.subrange(from as int, i as int).subrange(0, i - from - 1) =~= v@.subrange(
            from as int,
            i - 1,
        ));
        i = i - 1;
    }
    i
}

/// `str::trim`: the text without the white space at its two ends.
pub fn trim(s: &str) -> (out: String)
    ensures
        out@ == trim_of(s@),
{
    let v = chars_of(s);
    assert(v@.subrange(0, v.len() as int) =~= s@);
    let a = skip_space(&v, 0, v.len());
    let b = drop_space(&v, a, v.len());
    text_between(&v, a, b)
}

/// The text without the white space at its end.
pub fn trim_end(s: &str) -> (out: String)
    ensures
        out@ == trim_end_of(s@),
{
    let v = chars_of(s);
    assert(v@.subrange(0, v.len() as int) =~= s@);
    let b = drop_space(&v, 0, v.len());
    text_between(&v, 0, b)
}

/// The text without the white space at its start.
pub fn trim_start(s: &str) -> (out: String)
    ensures
        out@ == trim_start_of(s@),
{
    let v = chars_of(s);
    assert(v@.subrange(0, v.len() as int) =~= s@);
    let a = skip_space(&v, 0, v.len());
    text_between(&v, a, v.len())
}

// ----------------------------------------------------------------- searching

/// `p` stands in `s` at `i`.
pub open spec fn occurs_at(s: Seq<char>, p: Seq<char>, i: int) -> bool {
    0 <= i && i + p.len() <= s.len() && s.subrange(i, i + p.len()) == p
}

/// The first place at or after `from` where `p` stands in `s`.
pub open spec fn find_from_of(s: Seq<char>, p: Seq<char>, from: int) -> Option<int>
    decreases s.len() + 1 - from,
{
    if from < 0 || from + p.len() > s.len() {
        None
    } else if occurs_at(s, p, from) {
        Some(from)
    } else {
        find_from_of(s, p, from + 1)
    }
}

/// `find_from_of` gives the least place, and `None` only where there is none.
pub proof fn find_is_first(s: Seq<char>, p: Seq<char>, from: int)
    requires
        0 <= from,
    ensures
        match find_from_of(s, p, from) {
            Some(i) => from <= i && occurs_at(s, p, i) && forall|j: int|
                from <= j < i ==> !occurs_at(s, p, j),
            None => forall|j: int| from <= j ==> !occurs_at(s, p, j),
        },
    decreases s.len() + 1 - from,
{
    if from + p.len() <= s.len() && !occurs_at(s, p, from) {
        find_is_first(s, p, from + 1);
    }
}

/// A text that stands in the middle of another stands in it.
pub proof fn middle_is_found(a: Seq<char>, p: Seq<char>, b: Seq<char>)
    ensures
        has_text(a + p + b, p),
{
    let s = a + p + b;
    assert(s.subrange(a.len() as int, (a.len() + p.len()) as int) =~= p);
    assert(occurs_at(s, p, a.len() as int));
    find_is_first(s, p, 0);
}

/// A text that stands in the middle part of another stands in it.
pub proof fn found_in_the_middle(a: Seq<char>, m: Seq<char>, b: Seq<char>, p: Seq<char>)
    requires
        has_text(m, p),
    ensures
        has_text(a + m + b, p),
{
    find_is_first(m, p, 0);
    let i = find_from_of(m, p, 0)->Some_0;
    let s = a + m + b;
    assert(s.subrange(a.len() + i, a.len() + i + p.len()) =~= m.subrange(i, i + p.len()));
    assert(occurs_at(s, p, a.len() + i));
    find_is_first(s, p, 0);
}

/// Whether `p` stands in `v` at `i`.
pub fn stands_at(v: &Vec<char>, p: &Vec<char>, i: usize) -> (b: bool)
    ensures
        b == occurs_at(v@, p@, i as int),
{
    if v.len() < p.len() || i > v.len() - p.len() {
        return false;
    }
    let mut k: usize = 0;
    while k < p.len()
        invariant
            k <= p.len(),
            i + p.len() <= v.len(),
            forall|j: int| 0 <= j < k ==> v@[i + j] == p@[j],
        decreases p.len() - k,
    {
        if v[i + k] != p[k] {
            assert(v@.subrange(i as int, i + p.len())[k as int] != p@[k as int]);
            return false;
        }
        k = k + 1;
    }
    assert(v@.subrange(i as int, i + p.len()) =~= p@);
    true
}

/// The first place at or after `from` where `p` stands in `v`.
pub fn find_from(v: &Vec<char>, p: &Vec<char>, from: usize) -> (r: Option<usize>)
    ensures
        match r {
            Some(i) => find_from_of(v@, p@, from as int) == Some(i as int) && occurs_at(
                v@,
                p@,
                i as int,
            ) && from <= i,
            None => find_from_of(v@, p@, from as int) is None,
        },
{
    if v.len() < p.len() {
        return None;
    }
    let mut i: usize = from;
    let last: usize = v.len() - p.len();
    while i <= last
        invariant
            from <= i,
            last + p.len() == v.len(),
            find_from_of(v@, p@, from as int) == find_from_of(v@, p@, i as int),
        decreases last + 1 - i,
    {
        if stands_at(v, p, i) {
            return Some(i);
        }
        if i == last {
            assert(find_from_of(v@, p@, i + 1) is None);
            return None;
        }
        i = i + 1;
    }
    None
}

/// Whether `p` stands somewhere in `s`.
pub open spec fn has_text(s: Seq<char>, p: Seq<char>) -> bool {
    find_from_of(s, p, 0) is Some
}

/// `str::contains` of a text.
pub fn contains(s: &str, p: &str) -> (b: bool)
    ensures
        b == has_text(s@, p@),
{
    find_from(&chars_of(s), &chars_of(p), 0).is_some()
}

/// Whether `s` starts with `p`.
pub fn starts_with(s: &str, p: &str) -> (b: bool)
    ensures
        b == p@.is_prefix_of(s@),
{
    stands_at(&chars_of(s), &chars_of(p), 0)
}

/// Whether `s` ends with `p`.
pub fn ends_with(s: &str, p: &str) -> (b: bool)
    ensures
        b == p@.is_suffix_of(s@),
{
    let v = chars_of(s);
    let w = chars_of(p);
    if v.len() < w.len() {
        return false;
    }
    let at: usize = v.len() - w.len();
    stands_at(&v, &w, at)
}

/// `Some` of what follows `p`, where `s` starts with `p`.
pub open spec fn without_prefix(s: Seq<char>, p: Seq<char>) -> Option<Seq<char>> {
    if p.is_prefix_of(s) {
        Some(s.skip(p.len() as int))
    } else {
        None
    }
}

/// `str::strip_prefix`.
pub fn strip_prefix(s: &str, p: &str) -> (r: Option<String>)
    ensures
        match r {
            Some(t) => without_prefix(s@, p@) == Some(t@),
            None => without_prefix(s@, p@) is None,
        },
{
    let v = chars_of(s);
    let w = chars_of(p);
    if stands_at(&v, &w, 0) {
        let out = text_between(&v, w.len(), v.len());
        assert(out@ =~= s@.skip(p@.len() as int));
        Some(out)
    } else {
        None
    }
}

/// `Some` of what precedes `p`, where `s` ends with `p`.
pub open spec fn without_suffix(s: Seq<char>, p: Seq<char>) -> Option<Seq<char>> {
    if p.is_suffix_of(s) {
        Some(s.take(s.len() - p.len()))
    } else {
        None
    }
}

/// `str::strip_suffix`.
pub fn strip_suffix(s: &str, p: &str) -> (r: Option<String>)
    ensures
        match r {
            Some(t) => without_suffix(s@, p@) == Some(t@),
            None => without_suffix(s@, p@) is None,
        },
{
    if ends_with(s, p) {
        let v = chars_of(s);
        let w = chars_of(p);
        let out = text_between(&v, 0, v.len() - w.len());
        assert(out@ =~= s@.take(s@.len() - p@.len()));
        Some(out)
    } else {
        None
    }
}

/// Where `c` first stands in `s`, or the length of `s` where it does not.
pub open spec fn position_of(s: Seq<char>, c: char) -> int
    decreases s.len(),
{
    if s.len() == 0 || s[0] == c {
        0
    } else {
        1 + position_of(s.skip(1), c)
    }
}

/// `position_of` is the least place of `c`.
pub proof fn position_is_first(s: Seq<char>, c: char)
    ensures
        0 <= position_of(s, c) <= s.len(),
        position_of(s, c) < s.len() ==> s[position_of(s, c)] == c,
        forall|j: int| 0 <= j < position_of(s, c) ==> s[j] != c,
        position_of(s, c) < s.len() <==> s.contains(c),
    decreases s.len(),
{
    if s.len() > 0 && s[0] != c {
        position_is_first(s.skip(1), c);
        assert forall|j: int| 0 <= j < position_of(s, c) implies s[j] != c by {
            if j > 0 {
                assert(s[j] == s.skip(1)[j - 1]);
            }
        }
        if s.contains(c) {
            let k = choose|k: int| 0 <= k < s.len() && s[k] == c;
            assert(s.skip(1)[k - 1] == c);
        }
    } else if s.len() > 0 {
        assert(s.contains(s[0]));
    }
}

/// The first place of `c` at or after `from`, or the length of `v`.
pub fn position_from(v: &Vec<char>, c: char, from: usize) -> (i: usize)
    requires
        from <= v.len(),
    ensures
        from <= i <= v.len(),
        i == from + position_of(v@.skip(from as int), c),
        i < v.len() ==> v@[i as int] == c,
        forall|j: int| from <= j < i ==> v@[j] != c,
{
    let mut i: usize = from;
    while i < v.len() && v[i] != c
        invariant
            from <= i <= v.len(),
            from + position_of(v@.skip(from as int), c) == i + position_of(v@.skip(i as int), c),
            forall|j: int| from <= j < i ==> v@[j] != c,
        decreases v.len() - i,
    {
        assert(v@.skip(i as int).skip(1) =~= v@.skip(i + 1));
        i = i + 1;
    }
    i
}

/// Whether `c` stands in `s`.
pub fn has_char(s: &str, c: char) -> (b: bool)
    ensures
        b == s@.contains(c),
{
    let v = chars_of(s);
    let i = position_from(&v, c, 0);
    proof {
        assert(v@.skip(0) =~= s@);
        position_is_first(s@, c);
    }
    i < v.len()
}

// --------------------------------------------------------- splitting, joining

/// The parts of `s` between the occurrences of `c`.
pub open spec fn split_of(s: Seq<char>, c: char) -> Seq<Seq<char>>
    decreases s.len(),
{
    let i = position_of(s, c);
    if 0 <= i < s.len() {
        seq![s.take(i)] + split_of(s.skip(i + 1), c)
    } else {
        seq![s]
    }
}

/// `str::split` on a character.
pub fn split(s: &str, c: char) -> (parts: Vec<String>)
    ensures
        texts(parts@) == split_of(s@, c),
        parts.len() >= 1,
{
    let v = chars_of(s);
    let mut parts: Vec<String> = Vec::new();
    let mut start: usize = 0;
    assert(v@.skip(0) =~= s@);
    assert(texts(parts@) + split_of(v@.skip(0), c) =~= split_of(s@, c));
    loop
        invariant
            v@ == s@,
            start <= v.len(),
            texts(parts@) + split_of(v@.skip(start as int), c) == split_of(s@, c),
        decreases v.len() - start,
    {
        let i = position_from(&v, c, start);
        let ghost before = texts(parts@);
        let ghost rest = v@.skip(start as int);
        push_text(&mut parts, text_between(&v, start, i));
        proof {
            assert(v@.subrange(start as int, i as int) =~= rest.take(i - start));
        }
        if i == v.len() {
            assert(rest.take(i - start) =~= rest);
            assert(texts(parts@) =~= before + seq![rest]);
            return parts;
        }
        proof {
            assert(rest.skip(i - start + 1) =~= v@.skip(i + 1));
            assert(texts(parts@) + split_of(v@.skip(i + 1), c) =~= before + (seq![
                rest.take(i - start),
            ] + split_of(v@.skip(i + 1), c)));
        }
        start = i + 1;
    }
}

/// The lines of `s`, each with the line break that ends it.
pub open spec fn lines_of(s: Seq<char>) -> Seq<Seq<char>>
    decreases s.len(),
{
    let i = position_of(s, '\n');
    if 0 <= i < s.len() {
        seq![s.take(i + 1)] + lines_of(s.skip(i + 1))
    } else if s.len() > 0 {
        seq![s]
    } else {
        Seq::empty()
    }
}

/// `str::split_inclusive` on the line break.
pub fn split_lines(s: &str) -> (lines: Vec<String>)
    ensures
        texts(lines@) == lines_of(s@),
{
    let v = chars_of(s);
    let mut lines: Vec<String> = Vec::new();
    let mut start: usize = 0;
    assert(v@.skip(0) =~= s@);
    assert(texts(lines@) + lines_of(v@.skip(0)) =~= lines_of(s@));
    while start < v.len()
        invariant
            v@ == s@,
            start <= v.len(),
            texts(lines@) + lines_of(v@.skip(start as int)) == lines_of(s@),
        decreases v.len() - start,
    {
        let i = position_from(&v, '\n', start);
        let ghost before = texts(lines@);
        let ghost rest = v@.skip(start as int);
        let end: usize = if i < v.len() {
            i + 1
        } else {
            i
        };
        push_text(&mut lines, text_between(&v, start, end));
        proof {
            assert(v@.subrange(start as int, end as int) =~= rest.take(end - start));
            assert(rest.skip(end - start) =~= v@.skip(end as int));
            assert(end == v.len() ==> rest.take(end - start) =~= rest);
            assert(lines_of(v@.skip(v.len() as int)) =~= Seq::empty());
            assert(texts(lines@) + lines_of(v@.skip(end as int)) =~= before + (seq![
                rest.take(end - start),
            ] + lines_of(v@.skip(end as int))));
        }
        start = end;
    }
    assert(lines_of(v@.skip(start as int)) =~= Seq::empty());
    assert(texts(lines@) =~= lines_of(s@));
    lines
}

/// A line without its line break, `\n` or `\r\n`.
pub open spec fn bare_line(line: Seq<char>) -> Seq<char> {
    match without_suffix(line, "\n"@) {
        None => line,
        Some(text) => match without_suffix(text, "\r"@) {
            None => text,
            Some(text) => text,
        },
    }
}

/// The lines of `s` without their line breaks.
pub open spec fn bare_lines(s: Seq<char>) -> Seq<Seq<char>> {
    Seq::new(lines_of(s).len(), |i: int| bare_line(lines_of(s)[i]))
}

/// `str::lines`.
pub fn plain_lines(s: &str) -> (lines: Vec<String>)
    ensures
        texts(lines@) == bare_lines(s@),
{
    let whole = split_lines(s);
    let ghost model = lines_of(s@);
    assert(model.len() == whole.len());
    let mut lines: Vec<String> = Vec::new();
    let mut i: usize = 0;
    while i < whole.len()
        invariant
            i <= whole.len(),
            lines.len() == i,
            model == texts(whole@),
            forall|j: int| 0 <= j < i ==> (#[trigger] lines@[j])@ == bare_line(model[j]),
        decreases whole.len() - i,
    {
        assert(model[i as int] == whole@[i as int]@);
        let line = match strip_suffix(&whole[i], "\n") {
            None => whole[i].clone(),
            Some(text) => match strip_suffix(&text, "\r") {
                None => text,
                Some(text) => text,
            },
        };
        lines.push(line);
        i = i + 1;
    }
    assert(texts(lines@) =~= bare_lines(s@));
    lines
}

/// Whether a list of strings holds the text.
pub fn lists_text(v: &Vec<String>, s: &str) -> (b: bool)
    ensures
        b == texts(v@).contains(s@),
{
    let mut i: usize = 0;
    while i < v.len()
        invariant
            i <= v.len(),
            forall|j: int| 0 <= j < i ==> texts(v@)[j] != s@,
        decreases v.len() - i,
    {
        if same_text(&v[i], s) {
            assert(texts(v@)[i as int] == s@);
            return true;
        }
        i = i + 1;
    }
    false
}

/// Where `c` last stands in `s`, or -1.
pub open spec fn last_position_of(s: Seq<char>, c: char) -> int
    decreases s.len(),
{
    if s.len() == 0 {
        -1
    } else if s.last() == c {
        s.len() - 1
    } else {
        last_position_of(s.drop_last(), c)
    }
}

/// What stands before and behind the last `c`.
pub open spec fn split_last_of(s: Seq<char>, c: char) -> Option<(Seq<char>, Seq<char>)> {
    let i = last_position_of(s, c);
    if 0 <= i < s.len() {
        Some((s.take(i), s.skip(i + 1)))
    } else {
        None
    }
}

/// `str::rsplit_once` on a character.
pub fn split_last(s: &str, c: char) -> (r: Option<(String, String)>)
    ensures
        split_last_of(s@, c) == match r {
            Some((a, b)) => Some((a@, b@)),
            None => None,
        },
{
    let v = chars_of(s);
    let mut i: usize = v.len();
    assert(v@.take(i as int) =~= s@);
    while i > 0
        invariant
            i <= v.len(),
            v@ == s@,
            last_position_of(s@, c) == last_position_of(v@.take(i as int), c),
        decreases i,
    {
        assert(v@.take(i as int).drop_last() =~= v@.take(i - 1));
        if v[i - 1] == c {
            let a = text_between(&v, 0, i - 1);
            let b = text_between(&v, i, v.len());
            assert(a@ =~= s@.take(i - 1));
            assert(b@ =~= s@.skip(i as int));
            return Some((a, b));
        }
        i = i - 1;
    }
    assert(v@.take(0) =~= Seq::empty());
    None
}

/// The text before the first white space.
pub open spec fn word_end(s: Seq<char>) -> int
    decreases s.len(),
{
    if s.len() == 0 || is_space(s[0]) {
        0
    } else {
        1 + word_end(s.skip(1))
    }
}

/// The words of `s`, as white space separates them.
pub open spec fn words_of(s: Seq<char>) -> Seq<Seq<char>>
    decreases s.len(),
{
    if s.len() == 0 {
        Seq::empty()
    } else if is_space(s[0]) {
        words_of(s.skip(1))
    } else {
        let n = word_end(s);
        if 0 < n <= s.len() {
            seq![s.take(n)] + words_of(s.skip(n))
        } else {
            Seq::empty()
        }
    }
}

/// `str::split_whitespace`.
pub fn words(s: &str) -> (out: Vec<String>)
    ensures
        texts(out@) == words_of(s@),
{
    let v = chars_of(s);
    let mut out: Vec<String> = Vec::new();
    let mut i: usize = 0;
    assert(v@.skip(0) =~= s@);
    assert(texts(out@) + words_of(v@.skip(0)) =~= words_of(s@));
    while i < v.len()
        invariant
            v@ == s@,
            i <= v.len(),
            texts(out@) + words_of(v@.skip(i as int)) == words_of(s@),
        decreases v.len() - i,
    {
        let ghost rest = v@.skip(i as int);
        assert(rest[0] == v@[i as int]);
        if space(v[i]) {
            assert(rest.skip(1) =~= v@.skip(i + 1));
            i = i + 1;
        } else {
            let mut j: usize = i;
            while j < v.len() && !space(v[j])
                invariant
                    i <= j <= v.len(),
                    rest == v@.skip(i as int),
                    word_end(rest) == j - i + word_end(v@.skip(j as int)),
                decreases v.len() - j,
            {
                assert(v@.skip(j as int)[0] == v@[j as int]);
                assert(v@.skip(j as int).skip(1) =~= v@.skip(j + 1));
                j = j + 1;
            }
            assert(j < v.len() ==> v@.skip(j as int)[0] == v@[j as int]);
            assert(word_end(v@.skip(j as int)) == 0);
            let ghost before = texts(out@);
            push_text(&mut out, text_between(&v, i, j));
            proof {
                assert(v@.subrange(i as int, j as int) =~= rest.take(j - i));
                assert(rest.skip(j - i) =~= v@.skip(j as int));
                assert(j > i) by {
                    if j == i {
                        assert(word_end(rest) == 1 + word_end(rest.skip(1)));
                        word_end_in_range(rest.skip(1));
                    }
                }
                assert(texts(out@) + words_of(v@.skip(j as int)) =~= before + (seq![
                    rest.take(j - i),
                ] + words_of(v@.skip(j as int))));
            }
            i = j;
        }
    }
    assert(words_of(v@.skip(i as int)) =~= Seq::empty());
    assert(texts(out@) =~= words_of(s@));
    out
}

/// A word ends within the text.
pub proof fn word_end_in_range(s: Seq<char>)
    ensures
        0 <= word_end(s) <= s.len(),
    decreases s.len(),
{
    if s.len() > 0 && !is_space(s[0]) {
        word_end_in_range(s.skip(1));
    }
}

/// The texts one after the other.
pub open spec fn joined(parts: Seq<Seq<char>>) -> Seq<char>
    decreases parts.len(),
{
    if parts.len() == 0 {
        Seq::empty()
    } else {
        parts[0] + joined(parts.skip(1))
    }
}

/// One more text comes behind the others.
pub proof fn joined_push(parts: Seq<Seq<char>>, last: Seq<char>)
    ensures
        joined(parts.push(last)) == joined(parts) + last,
    decreases parts.len(),
{
    let all = parts.push(last);
    if parts.len() == 0 {
        assert(all.skip(1) =~= Seq::empty());
        assert(joined(all.skip(1)) =~= Seq::empty());
        assert(joined(all) =~= joined(parts) + last);
    } else {
        joined_push(parts.skip(1), last);
        assert(all.skip(1) =~= parts.skip(1).push(last));
        assert(joined(all) =~= joined(parts) + last);
    }
}

/// The lines of a text are the whole of it.
pub proof fn lines_join_to_the_text(s: Seq<char>)
    ensures
        joined(lines_of(s)) == s,
    decreases s.len(),
{
    let i = position_of(s, '\n');
    let lines = lines_of(s);
    if 0 <= i < s.len() {
        lines_join_to_the_text(s.skip(i + 1));
        assert(lines.skip(1) =~= lines_of(s.skip(i + 1)));
        assert(s.take(i + 1) + s.skip(i + 1) =~= s);
    } else if s.len() > 0 {
        assert(lines.skip(1) =~= Seq::empty());
        assert(joined(lines.skip(1)) =~= Seq::empty());
        assert(s + Seq::<char>::empty() =~= s);
    } else {
        assert(joined(lines) =~= s);
    }
}

/// The parts with `sep` between each two of them.
pub open spec fn join_of(parts: Seq<Seq<char>>, sep: Seq<char>) -> Seq<char>
    decreases parts.len(),
{
    if parts.len() == 0 {
        Seq::empty()
    } else if parts.len() == 1 {
        parts[0]
    } else {
        join_of(parts.drop_last(), sep) + sep + parts.last()
    }
}

/// One more line behind a text is one more part of it.
pub proof fn split_appended(t: Seq<char>, x: Seq<char>)
    requires
        !x.contains('\n'),
    ensures
        split_of(t + "\n"@ + x, '\n') == split_of(t, '\n').push(x),
    decreases t.len(),
{
    reveal_strlit("\n");
    let all = t + "\n"@ + x;
    let p = position_of(all, '\n');
    let q = position_of(t, '\n');
    position_is_first(all, '\n');
    position_is_first(t, '\n');
    assert(all[t.len() as int] == '\n');
    if q < t.len() {
        assert(all[q] == t[q]);
        assert(p == q) by {
            if p < q {
                assert(t[p] == all[p]);
            }
        }
        split_appended(t.skip(q + 1), x);
        assert(all.skip(p + 1) =~= t.skip(q + 1) + "\n"@ + x);
        assert(all.take(p) =~= t.take(q));
        assert(split_of(all, '\n') =~= split_of(t, '\n').push(x));
    } else {
        assert(p == t.len()) by {
            if p < t.len() {
                assert(t[p] == all[p]);
                assert(t.contains('\n'));
            }
        }
        assert(all.take(p) =~= t);
        assert(all.skip(p + 1) =~= x);
        position_is_first(x, '\n');
        assert(split_of(x, '\n') =~= seq![x]);
        assert(split_of(all, '\n') =~= split_of(t, '\n').push(x));
    }
}

/// A part of a text holds no line break.
pub proof fn parts_hold_no_break(s: Seq<char>)
    ensures
        split_of(s, '\n').len() >= 1,
        forall|i: int| 0 <= i < split_of(s, '\n').len() ==> !(#[trigger] split_of(s, '\n')[i]).contains('\n'),
    decreases s.len(),
{
    let p = position_of(s, '\n');
    position_is_first(s, '\n');
    let parts = split_of(s, '\n');
    if p < s.len() {
        parts_hold_no_break(s.skip(p + 1));
        let rest = split_of(s.skip(p + 1), '\n');
        assert forall|i: int| 0 <= i < parts.len() implies !(#[trigger] parts[i]).contains('\n') by {
            if i == 0 {
                if parts[0].contains('\n') {
                    let k = parts[0].index_of('\n');
                    assert(s[k] == '\n');
                }
            } else {
                assert(parts[i] == rest[i - 1]);
            }
        }
    } else {
        assert(parts =~= seq![s]);
    }
}

/// The parts of a text joined by line breaks are the text.
pub proof fn parts_join_to_the_text(s: Seq<char>)
    ensures
        join_of(split_of(s, '\n'), "\n"@) == s,
    decreases s.len(),
{
    reveal_strlit("\n");
    let p = position_of(s, '\n');
    position_is_first(s, '\n');
    let parts = split_of(s, '\n');
    if p < s.len() {
        let rest = split_of(s.skip(p + 1), '\n');
        parts_join_to_the_text(s.skip(p + 1));
        parts_hold_no_break(s.skip(p + 1));
        join_with_first(s.take(p), rest);
        assert(s.take(p) + "\n"@ + s.skip(p + 1) =~= s);
    } else {
        assert(parts =~= seq![s]);
        reveal_with_fuel(join_of, 2);
        assert(join_of(parts, "\n"@) =~= s);
    }
}

/// A first part comes in front of the others.
proof fn join_with_first(first: Seq<char>, rest: Seq<Seq<char>>)
    requires
        rest.len() >= 1,
    ensures
        join_of(seq![first] + rest, "\n"@) == first + "\n"@ + join_of(rest, "\n"@),
    decreases rest.len(),
{
    let all = seq![first] + rest;
    assert(all.last() == rest.last());
    assert(all.drop_last() =~= seq![first] + rest.drop_last());
    if rest.len() == 1 {
        reveal_with_fuel(join_of, 3);
        assert(all.drop_last() =~= seq![first]);
        assert(rest.drop_last() =~= Seq::empty());
        assert(join_of(all, "\n"@) =~= first + "\n"@ + join_of(rest, "\n"@));
    } else {
        join_with_first(first, rest.drop_last());
        assert(join_of(all, "\n"@) =~= first + "\n"@ + join_of(rest, "\n"@));
    }
}

/// `[String]::join`.
pub fn join(parts: &Vec<String>, sep: &str) -> (out: String)
    ensures
        out@ == join_of(texts(parts@), sep@),
{
    let mut out = String::new();
    let mut i: usize = 0;
    while i < parts.len()
        invariant
            i <= parts.len(),
            out@ == join_of(texts(parts@).take(i as int), sep@),
        decreases parts.len() - i,
    {
        proof {
            assert(texts(parts@).take(i + 1).drop_last() =~= texts(parts@).take(i as int));
        }
        if i > 0 {
            out.append(sep);
        }
        out.append(&parts[i]);
        i = i + 1;
    }
    assert(texts(parts@).take(i as int) =~= texts(parts@));
    out
}

/// Two texts one after the other.
pub fn concat(a: &str, b: &str) -> (out: String)
    ensures
        out@ == a@ + b@,
{
    let mut out = a.to_owned();
    out.append(b);
    out
}

/// `s` with each occurrence of `p`, taken from the left, replaced by `to`.
pub open spec fn replace_of(s: Seq<char>, p: Seq<char>, to: Seq<char>) -> Seq<char>
    decreases s.len(),
{
    match find_from_of(s, p, 0) {
        Some(i) => if p.len() > 0 && 0 <= i && i + p.len() <= s.len() {
            s.take(i) + to + replace_of(s.skip(i + p.len()), p, to)
        } else {
            s
        },
        None => s,
    }
}

/// A search that starts later is a search in what follows.
pub proof fn find_in_rest(s: Seq<char>, p: Seq<char>, from: int, skip: int)
    requires
        0 <= skip <= s.len(),
        0 <= from,
    ensures
        find_from_of(s, p, from + skip) == match find_from_of(s.skip(skip), p, from) {
            Some(i) => Some(i + skip),
            None => None::<int>,
        },
    decreases s.len() + 1 - from - skip,
{
    let r = s.skip(skip);
    if from + p.len() <= r.len() {
        assert(r.subrange(from, from + p.len()) =~= s.subrange(
            from + skip,
            from + skip + p.len(),
        ));
        if !occurs_at(r, p, from) {
            find_in_rest(s, p, from + 1, skip);
        }
    }
}

/// `str::replace` of a text that is not empty.
pub fn replace(s: &str, p: &str, to: &str) -> (out: String)
    requires
        p@.len() > 0,
    ensures
        out@ == replace_of(s@, p@, to@),
{
    let v = chars_of(s);
    let w = chars_of(p);
    let mut out = String::new();
    let mut start: usize = 0;
    assert(v@.skip(0) =~= s@);
    loop
        invariant
            v@ == s@,
            w@ == p@,
            p@.len() > 0,
            start <= v.len(),
            out@ + replace_of(v@.skip(start as int), p@, to@) == replace_of(s@, p@, to@),
        decreases v.len() - start,
    {
        proof {
            find_in_rest(v@, w@, 0, start as int);
        }
        let ghost before = out@;
        let ghost rest = v@.skip(start as int);
        match find_from(&v, &w, start) {
            Some(i) => {
                out.append(&text_between(&v, start, i));
                out.append(to);
                proof {
                    assert(v@.subrange(start as int, i as int) =~= rest.take(i - start));
                    assert(rest.skip(i - start + p@.len()) =~= v@.skip(i + p@.len()));
                    assert(out@ + replace_of(v@.skip(i + p@.len()), p@, to@) =~= before + (
                    rest.take(i - start) + to@ + replace_of(v@.skip(i + p@.len()), p@, to@)));
                }
                start = i + w.len();
            },
            None => {
                out.append(&text_between(&v, start, v.len()));
                assert(v@.subrange(start as int, v.len() as int) =~= rest);
                return out;
            },
        }
    }
}

/// `s` with each `a` replaced by `b`.
pub open spec fn swap_char_of(s: Seq<char>, a: char, b: char) -> Seq<char> {
    s.map_values(
        |c: char|
            if c == a {
                b
            } else {
                c
            },
    )
}

/// `str::replace` of one character by one character.
pub fn swap_char(s: &str, a: char, b: char) -> (out: String)
    ensures
        out@ == swap_char_of(s@, a, b),
{
    let mut out = String::new();
    for c in it: s.chars()
        invariant
            it.seq() == s@,
            out@ == swap_char_of(s@.take(it.index() as int), a, b),
    {
        out.push(
            if c == a {
                b
            } else {
                c
            },
        );
        assert(s@.take(it.index() + 1) =~= s@.take(it.index() as int).push(c));
    }
    assert(s@.take(s@.len() as int) =~= s@);
    out
}

/// What `str::to_lowercase` of std makes of a text: the Unicode lower-case
/// mapping, with its rule for a final sigma.
pub uninterp spec fn lowercase_of(s: Seq<char>) -> Seq<char>;

/// The text holds ASCII characters only.
pub open spec fn is_ascii(s: Seq<char>) -> bool {
    forall|i: int| 0 <= i < s.len() ==> #[trigger] s[i] < '\u{80}'
}

/// The small letter of an ASCII capital; every other character as it is.
pub open spec fn small(c: char) -> char {
    if is_upper(c) {
        (c as u32 + 32) as char
    } else {
        c
    }
}

/// The capital of an ASCII small letter; every other character as it is.
pub open spec fn capital(c: char) -> char {
    if is_lower(c) {
        (c as u32 - 32) as char
    } else {
        c
    }
}

/// `str::to_lowercase` of std. The contract names its result, and says what it
/// is for ASCII. Of every text it says that no capital of ASCII is left, and
/// that hyphens and colons, which have no case, come from the text: none
/// appears in it that was not there, and no two colons come together.
#[verifier::external_body]
pub(crate) fn lowercase(s: &str) -> (out: String)
    ensures
        out@ == lowercase_of(s@),
        is_ascii(s@) ==> out@ == s@.map_values(|c: char| small(c)),
        forall|i: int| 0 <= i < out@.len() ==> !is_upper(#[trigger] out@[i]),
        out@.contains('-') ==> s@.contains('-'),
        has_text(out@, "::"@) ==> has_text(s@, "::"@),
{
    s.to_lowercase()
}

/// What `str::to_uppercase` of std makes of a text: the Unicode upper-case
/// mapping.
pub uninterp spec fn uppercase_of(s: Seq<char>) -> Seq<char>;

/// `str::to_uppercase` of std. The contract names its result, and says what it
/// is for ASCII.
#[verifier::external_body]
pub(crate) fn uppercase(s: &str) -> (out: String)
    ensures
        out@ == uppercase_of(s@),
        is_ascii(s@) ==> out@ == s@.map_values(|c: char| capital(c)),
{
    s.to_uppercase()
}

/// What `char::is_alphanumeric` of std says of a character: a letter or a
/// number of Unicode.
pub uninterp spec fn is_alphanumeric_of(c: char) -> bool;

/// `char::is_alphanumeric` of std. The contract names its result, and says what
/// it is for ASCII.
#[verifier::external_body]
pub(crate) fn alphanumeric(c: char) -> (b: bool)
    ensures
        b == is_alphanumeric_of(c),
        c < '\u{80}' ==> b == is_alnum(c),
{
    c.is_alphanumeric()
}

/// What `char::is_alphabetic` of std says of a character: a letter of Unicode.
pub uninterp spec fn is_alphabetic_of(c: char) -> bool;

/// `char::is_alphabetic` of std. The contract names its result, and says what it
/// is for ASCII.
#[verifier::external_body]
pub(crate) fn alphabetic(c: char) -> (b: bool)
    ensures
        b == is_alphabetic_of(c),
        c < '\u{80}' ==> b == is_letter(c),
{
    c.is_alphabetic()
}

/// What the `Debug` form of a text is: the text in double quotes, with the
/// escapes of a Rust literal.
pub uninterp spec fn debug_of(s: Seq<char>) -> Seq<char>;

/// `str` of std formatted with `{:?}`. The contract names its result.
#[verifier::external_body]
pub(crate) fn debug_text(s: &str) -> (out: String)
    ensures
        out@ == debug_of(s@),
{
    format!("{s:?}")
}

// --------------------------------------------------------------------- order

/// `a` comes before `b` in the order of code points.
pub open spec fn text_lt(a: Seq<char>, b: Seq<char>) -> bool
    decreases a.len(),
{
    if b.len() == 0 {
        false
    } else if a.len() == 0 {
        true
    } else if a[0] != b[0] {
        a[0] < b[0]
    } else {
        text_lt(a.skip(1), b.skip(1))
    }
}

/// `str` of std compared with `<`: by the bytes, which orders texts by their
/// code points.
#[verifier::external_body]
pub(crate) fn text_less(a: &str, b: &str) -> (r: bool)
    ensures
        r == text_lt(a@, b@),
{
    a < b
}

/// The order is strict.
pub proof fn text_lt_irreflexive(a: Seq<char>)
    ensures
        !text_lt(a, a),
    decreases a.len(),
{
    if a.len() > 0 {
        text_lt_irreflexive(a.skip(1));
    }
}

/// The order is transitive.
pub proof fn text_lt_transitive(a: Seq<char>, b: Seq<char>, c: Seq<char>)
    requires
        text_lt(a, b),
        text_lt(b, c),
    ensures
        text_lt(a, c),
    decreases a.len(),
{
    if a.len() > 0 && a[0] == b[0] && b[0] == c[0] {
        text_lt_transitive(a.skip(1), b.skip(1), c.skip(1));
    }
}

/// Of two texts one comes first, or they are the same.
pub proof fn text_lt_total(a: Seq<char>, b: Seq<char>)
    ensures
        text_lt(a, b) || text_lt(b, a) || a == b,
    decreases a.len(),
{
    if a.len() == 0 && b.len() == 0 {
        assert(a =~= b);
    } else if a.len() > 0 && b.len() > 0 && a[0] == b[0] {
        text_lt_total(a.skip(1), b.skip(1));
        if a.skip(1) == b.skip(1) {
            assert(a =~= seq![a[0]] + a.skip(1));
            assert(b =~= seq![b[0]] + b.skip(1));
        }
    }
}

/// Each text comes before every later one.
pub open spec fn strictly_sorted(v: Seq<Seq<char>>) -> bool {
    forall|i: int, j: int| 0 <= i < j < v.len() ==> text_lt(#[trigger] v[i], #[trigger] v[j])
}

/// Two sorted lists of one length are the same where one holds the other.
pub proof fn same_sorted_lists(a: Seq<Seq<char>>, b: Seq<Seq<char>>)
    requires
        a.len() == b.len(),
        strictly_sorted(a),
        strictly_sorted(b),
        forall|i: int| 0 <= i < b.len() ==> a.contains(#[trigger] b[i]),
    ensures
        a == b,
    decreases a.len(),
{
    if a.len() > 0 {
        let last = b.len() - 1;
        let j = a.index_of(b[last]);
        assert(a[j] == b[last]);
        b_fits_below(a, b, last);
        assert(j == last);
        let a1 = a.drop_last();
        let b1 = b.drop_last();
        assert forall|i: int| 0 <= i < b1.len() implies a1.contains(#[trigger] b1[i]) by {
            assert(a.contains(b[i]));
            let k = a.index_of(b[i]);
            assert(a[k] == b[i]);
            text_lt_irreflexive(b[last]);
            assert(text_lt(b[i], b[last]));
            assert(a1[k] == b[i]);
        }
        assert(strictly_sorted(a1)) by {
            assert forall|x: int, y: int| 0 <= x < y < a1.len() implies text_lt(
                #[trigger] a1[x],
                #[trigger] a1[y],
            ) by {
                assert(text_lt(a[x], a[y]));
            }
        }
        assert(strictly_sorted(b1)) by {
            assert forall|x: int, y: int| 0 <= x < y < b1.len() implies text_lt(
                #[trigger] b1[x],
                #[trigger] b1[y],
            ) by {
                assert(text_lt(b[x], b[y]));
            }
        }
        same_sorted_lists(a1, b1);
        assert(a =~= a1.push(a[last]));
        assert(b =~= b1.push(b[last]));
    } else {
        assert(a =~= b);
    }
}

/// The element at `i` of a sorted list stands at `i` or later in a sorted list
/// that holds all of it.
proof fn b_fits_below(a: Seq<Seq<char>>, b: Seq<Seq<char>>, i: int)
    requires
        strictly_sorted(a),
        strictly_sorted(b),
        forall|i: int| 0 <= i < b.len() ==> a.contains(#[trigger] b[i]),
        0 <= i < b.len(),
    ensures
        i <= a.index_of(b[i]) < a.len(),
    decreases i,
{
    assert(a.contains(b[i]));
    if i > 0 {
        b_fits_below(a, b, i - 1);
        let p = a.index_of(b[i - 1]);
        let q = a.index_of(b[i]);
        assert(a.contains(b[i - 1]));
        assert(a[p] == b[i - 1] && a[q] == b[i]);
        assert(text_lt(b[i - 1], b[i]));
        text_lt_irreflexive(b[i]);
        if q <= p {
            if q < p {
                assert(text_lt(a[q], a[p]));
                text_lt_transitive(a[q], a[p], a[q]);
            }
        }
    }
}

/// `s` is sorted and holds the texts of `v`, each once.
pub open spec fn is_distinct(s: Seq<Seq<char>>, v: Seq<Seq<char>>) -> bool {
    &&& strictly_sorted(s)
    &&& forall|t: Seq<char>| #![trigger s.contains(t)] s.contains(t) <==> v.contains(t)
}

/// The texts of `v`, each once, sorted.
pub open spec fn distinct(v: Seq<Seq<char>>) -> Seq<Seq<char>> {
    choose|s: Seq<Seq<char>>| is_distinct(s, v)
}

/// A sorted list has no text twice.
pub proof fn sorted_has_no_duplicates(s: Seq<Seq<char>>)
    requires
        strictly_sorted(s),
    ensures
        s.no_duplicates(),
{
    assert forall|i: int, j: int| 0 <= i < j < s.len() implies s[i] != s[j] by {
        text_lt_irreflexive(s[i]);
        assert(text_lt(s[i], s[j]));
    }
}

/// There is one sorted list of the texts of `v`.
pub proof fn distinct_is_unique(s: Seq<Seq<char>>, v: Seq<Seq<char>>)
    requires
        is_distinct(s, v),
    ensures
        s == distinct(v),
{
    let t = distinct(v);
    sorted_has_no_duplicates(s);
    sorted_has_no_duplicates(t);
    assert(s.to_set() =~= t.to_set()) by {
        assert forall|x: Seq<char>| s.to_set().contains(x) <==> t.to_set().contains(x) by {
            assert(s.contains(x) <==> v.contains(x));
            assert(t.contains(x) <==> v.contains(x));
        }
    }
    s.unique_seq_to_set();
    t.unique_seq_to_set();
    assert forall|i: int| 0 <= i < t.len() implies s.contains(#[trigger] t[i]) by {
        assert(t.to_set().contains(t[i]));
    }
    same_sorted_lists(s, t);
}

/// The texts of every list can be sorted, each once.
pub proof fn distinct_is_distinct(v: Seq<Seq<char>>)
    ensures
        is_distinct(distinct(v), v),
    decreases v.len(),
{
    if v.len() == 0 {
        assert(is_distinct(Seq::empty(), v));
    } else {
        let head = v.drop_last();
        let x = v.last();
        distinct_is_distinct(head);
        let s = distinct(head);
        assert forall|t: Seq<char>| v.contains(t) <==> head.contains(t) || t == x by {
            if head.contains(t) {
                assert(v[head.index_of(t)] == t);
            }
            if t == x {
                assert(v[v.len() - 1] == t);
            }
            if v.contains(t) && t != x {
                assert(head[v.index_of(t)] == t);
            }
        }
        if s.contains(x) {
            assert(head.contains(x));
            assert(is_distinct(s, v));
        } else {
            let k = place_among(s, x, s.len() as int);
            let with = s.take(k).push(x) + s.skip(k);
            assert forall|i: int, j: int| 0 <= i < j < with.len() implies text_lt(
                #[trigger] with[i],
                #[trigger] with[j],
            ) by {
                if i < k && j > k {
                    assert(text_lt(s[i], s[j - 1]));
                } else if i < k && j < k {
                    assert(text_lt(s[i], s[j]));
                } else if i > k {
                    assert(text_lt(s[i - 1], s[j - 1]));
                }
            }
            assert forall|t: Seq<char>|
                #![trigger with.contains(t)]
                with.contains(t) <==> v.contains(t) by {
                assert(s.contains(t) <==> head.contains(t));
                if s.contains(t) {
                    let i = s.index_of(t);
                    assert(if i < k {
                        with[i] == t
                    } else {
                        with[i + 1] == t
                    });
                }
                if t == x {
                    assert(with[k] == t);
                }
                if with.contains(t) && t != x {
                    let i = with.index_of(t);
                    assert(if i < k {
                        s[i] == t
                    } else {
                        s[i - 1] == t
                    });
                }
            }
            assert(is_distinct(with, v));
        }
    }
}

/// How many of the first `n` texts of a sorted list come before one that is not
/// in it.
proof fn place_among(s: Seq<Seq<char>>, x: Seq<char>, n: int) -> (k: int)
    requires
        strictly_sorted(s),
        !s.contains(x),
        0 <= n <= s.len(),
    ensures
        0 <= k <= n,
        forall|i: int| 0 <= i < k ==> text_lt(#[trigger] s[i], x),
        forall|i: int| k <= i < n ==> text_lt(x, #[trigger] s[i]),
    decreases n,
{
    if n == 0 {
        0
    } else {
        text_lt_total(s[n - 1], x);
        assert(s.contains(s[n - 1]));
        if text_lt(s[n - 1], x) {
            assert forall|i: int| 0 <= i < n implies text_lt(#[trigger] s[i], x) by {
                if i < n - 1 {
                    assert(text_lt(s[i], s[n - 1]));
                    text_lt_transitive(s[i], s[n - 1], x);
                }
            }
            n
        } else {
            place_among(s, x, n - 1)
        }
    }
}

/// Whether two lists of strings hold the same texts in the same order.
pub fn same_texts(a: &Vec<String>, b: &Vec<String>) -> (same: bool)
    ensures
        same == (texts(a@) == texts(b@)),
{
    assert(texts(a@).len() == a.len() && texts(b@).len() == b.len());
    if a.len() != b.len() {
        return false;
    }
    let mut i: usize = 0;
    while i < a.len()
        invariant
            i <= a.len() == b.len(),
            forall|j: int| 0 <= j < i ==> texts(a@)[j] == texts(b@)[j],
        decreases a.len() - i,
    {
        assert(texts(a@)[i as int] == a@[i as int]@);
        assert(texts(b@)[i as int] == b@[i as int]@);
        if !same_text(&a[i], &b[i]) {
            return false;
        }
        i = i + 1;
    }
    assert(texts(a@) =~= texts(b@));
    true
}

// ------------------------------------------------------------------- numbers

/// The last decimal digit of a number.
pub open spec fn digit_of(n: nat) -> char {
    ('0' as u32 + (n % 10)) as char
}

/// The decimal digits of `n`.
pub open spec fn decimal(n: nat) -> Seq<char>
    decreases n,
{
    if n < 10 {
        seq![digit_of(n)]
    } else {
        decimal(n / 10).push(digit_of(n % 10))
    }
}

/// The decimal digits of `n`.
pub fn decimal_text(n: u64) -> (out: String)
    ensures
        out@ == decimal(n as nat),
    decreases n,
{
    let d: u8 = 48 + (n % 10) as u8;
    if n < 10 {
        let mut out = String::new();
        out.push(d as char);
        assert(out@ =~= decimal(n as nat));
        out
    } else {
        let mut out = decimal_text(n / 10);
        out.push(d as char);
        out
    }
}

} // verus!
