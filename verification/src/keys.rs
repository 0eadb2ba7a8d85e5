//! Key splitting and the `underscore` inflection.
use crate::text::{
    chars_of, contains, digit, find_from_of, find_is_first, has_text, is_ascii, is_digit, is_lower,
    is_upper, join_of, lower, lowercase, lowercase_of, occurs_at, position_is_first, position_of,
    push_text, replace, replace_of, small, split, split_of, swap_char, swap_char_of, text_between,
    texts, upper,
};
use vstd::prelude::*;

verus! {

// ----------------------------------------------------------------- splitting

/// The bracket that closes `c`.
pub open spec fn closing_of(c: char) -> Option<char> {
    if c == '{' {
        Some('}')
    } else if c == '[' {
        Some(']')
    } else if c == '(' {
        Some(')')
    } else if c == '<' {
        Some('>')
    } else {
        None
    }
}

fn closing_for(ch: char) -> (r: Option<char>)
    ensures
        r == closing_of(ch),
{
    match ch {
        '{' => Some('}'),
        '[' => Some(']'),
        '(' => Some(')'),
        '<' => Some('>'),
        _ => None,
    }
}

/// The closing bracket that the text before `i` still waits for. A bracket
/// that is open hides every other bracket until it is closed.
pub open spec fn awaited(key: Seq<char>, i: int) -> Option<char>
    decreases i,
{
    if i <= 0 {
        None
    } else {
        match awaited(key, i - 1) {
            Some(want) => if key[i - 1] == want {
                None
            } else {
                Some(want)
            },
            None => closing_of(key[i - 1]),
        }
    }
}

/// The dot at `i` separates two segments: it stands outside all brackets.
pub open spec fn separates(key: Seq<char>, i: int) -> bool {
    key[i] == '.' && awaited(key, i) is None
}

/// The first separating dot at or after `from`, or the length of the key.
pub open spec fn next_separator(key: Seq<char>, from: int) -> int
    decreases key.len() - from,
{
    if from >= key.len() || separates(key, from) {
        from
    } else {
        next_separator(key, from + 1)
    }
}

/// The segments of what follows the last separator, at `from`: nothing where
/// nothing follows, and every dot splits where a bracket stays open.
pub open spec fn last_segments(key: Seq<char>, from: int) -> Seq<Seq<char>> {
    let part = key.skip(from);
    if part.len() == 0 {
        Seq::empty()
    } else if awaited(key, key.len() as int) is Some {
        split_of(part, '.')
    } else {
        seq![part]
    }
}

/// The segments of the key from `from` on, where `count` segments precede and
/// at most `max` are wanted (0 for no limit).
pub open spec fn segments_from(key: Seq<char>, from: int, count: nat, max: nat) -> Seq<Seq<char>>
    decreases key.len() - from,
{
    let dot = next_separator(key, from);
    if from > key.len() || dot < from || dot >= key.len() {
        last_segments(key, from)
    } else if count + 2 == max {
        let rest = key.skip(dot + 1);
        if rest.len() == 0 {
            seq![key.subrange(from, dot)]
        } else {
            seq![key.subrange(from, dot), rest]
        }
    } else {
        seq![key.subrange(from, dot)] + segments_from(key, dot + 1, count + 1, max)
    }
}

/// The segments of a key, at most `max` of them; the last one then holds the
/// rest of the key.
pub open spec fn split_key_max_of(key: Seq<char>, max: nat) -> Seq<Seq<char>> {
    if max == 1 {
        seq![key]
    } else {
        segments_from(key, 0, 0, max)
    }
}

/// The segments of a key.
pub open spec fn split_key_of(key: Seq<char>) -> Seq<Seq<char>> {
    segments_from(key, 0, 0, 0)
}

/// Splits a key on dots. Dots inside `{}`, `[]`, `()` or `<>` do not split.
pub fn split_key(key: &str) -> (parts: Vec<String>)
    ensures
        texts(parts@) == split_key_of(key@),
{
    split_key_max(key, 0)
}

/// Splits a key on dots into at most `max` parts.
pub fn split_key_max(key: &str, max: usize) -> (parts: Vec<String>)
    ensures
        texts(parts@) == split_key_max_of(key@, max as nat),
{
    let mut parts: Vec<String> = Vec::new();
    if max == 1 {
        push_text(&mut parts, key.to_owned());
        assert(texts(parts@) =~= seq![key@]);
        return parts;
    }
    let v = chars_of(key);
    let mut end_char: Option<char> = None;
    let mut start: usize = 0;
    let mut i: usize = 0;
    assert(texts(parts@) + segments_from(v@, 0, 0, max as nat) =~= segments_from(
        v@,
        0,
        0,
        max as nat,
    ));
    while i < v.len()
        invariant
            v@ == key@,
            max != 1,
            start <= i <= v.len(),
            parts.len() <= start,
            end_char == awaited(v@, i as int),
            next_separator(v@, start as int) == next_separator(v@, i as int),
            split_key_max_of(key@, max as nat) == texts(parts@) + segments_from(
                v@,
                start as int,
                parts.len() as nat,
                max as nat,
            ),
        decreases v.len() - i,
    {
        let ch = v[i];
        match end_char {
            Some(want) => {
                if ch == want {
                    end_char = None;
                }
            },
            None => {
                if ch == '.' {
                    let ghost before = texts(parts@);
                    let ghost count = parts.len() as nat;
                    push_text(&mut parts, text_between(&v, start, i));
                    if max > 0 && parts.len() == max - 1 {
                        let rest = text_between(&v, i + 1, v.len());
                        proof {
                            assert(rest@ =~= v@.skip(i + 1));
                        }
                        if !rest.as_str().is_empty() {
                            push_text(&mut parts, rest);
                            assert(texts(parts@) =~= before + seq![
                                v@.subrange(start as int, i as int),
                                v@.skip(i + 1),
                            ]);
                        } else {
                            assert(texts(parts@) =~= before + seq![
                                v@.subrange(start as int, i as int),
                            ]);
                        }
                        return parts;
                    }
                    proof {
                        assert(before + (seq![v@.subrange(start as int, i as int)] + segments_from(
                            v@,
                            i + 1,
                            count + 1,
                            max as nat,
                        )) =~= texts(parts@) + segments_from(v@, i + 1, count + 1, max as nat));
                    }
                    start = i + 1;
                } else {
                    end_char = closing_for(ch);
                }
            },
        }
        i = i + 1;
    }
    let part = text_between(&v, start, v.len());
    assert(part@ =~= v@.skip(start as int));
    let ghost before = texts(parts@);
    if part.as_str().is_empty() {
        assert(before + Seq::<Seq<char>>::empty() =~= before);
        return parts;
    }
    if end_char.is_some() {
        let mut pieces = split(&part, '.');
        let ghost all = pieces@;
        parts.append(&mut pieces);
        assert(texts(parts@) =~= before + texts(all));
    } else {
        push_text(&mut parts, part);
        assert(texts(parts@) =~= before + seq![part@]);
    }
    parts
}

/// The last segment of a key, or nothing for a key without segments.
pub open spec fn last_key_part_of(key: Seq<char>) -> Seq<char> {
    let parts = split_key_of(key);
    if parts.len() == 0 {
        Seq::empty()
    } else {
        parts.last()
    }
}

/// The last segment of a key.
pub fn last_key_part(key: &str) -> (part: String)
    ensures
        part@ == last_key_part_of(key@),
{
    let mut parts = split_key(key);
    assert(parts@.len() == split_key_of(key@).len());
    match parts.pop() {
        Some(part) => part,
        None => String::new(),
    }
}

// -------------------------------------------------------------------- parent

/// Where the last dot of `key` stands, or -1.
pub open spec fn last_dot(key: Seq<char>) -> int
    decreases key.len(),
{
    if key.len() == 0 {
        -1
    } else if key.last() == '.' {
        key.len() - 1
    } else {
        last_dot(key.drop_last())
    }
}

/// The key without its last dot and what follows it.
pub open spec fn parent_key_of(key: Seq<char>) -> Option<Seq<char>> {
    if last_dot(key) < 0 {
        None
    } else {
        Some(key.take(last_dot(key)))
    }
}

/// The parent key, or `None` at the root.
pub fn parent_key(key: &str) -> (parent: Option<&str>)
    ensures
        match parent {
            Some(p) => parent_key_of(key@) == Some(p@),
            None => parent_key_of(key@) is None,
        },
{
    let v = chars_of(key);
    let mut i: usize = v.len();
    assert(v@.take(i as int) =~= key@);
    while i > 0
        invariant
            i <= v.len(),
            v@ == key@,
            last_dot(key@) == last_dot(v@.take(i as int)),
        decreases i,
    {
        assert(v@.take(i as int).drop_last() =~= v@.take(i - 1));
        if v[i - 1] == '.' {
            let head = key.substring_char(0, i - 1);
            assert(head@ =~= key@.take(i - 1));
            return Some(head);
        }
        i = i - 1;
    }
    None
}

// ---------------------------------------------------------------- underscore

/// The end of the run of upper-case letters and digits that starts at `i`.
pub open spec fn capital_run(s: Seq<char>, i: int) -> int
    decreases s.len() - i,
{
    if 0 <= i < s.len() && (is_upper(s[i]) || is_digit(s[i])) {
        capital_run(s, i + 1)
    } else {
        i
    }
}

/// A run of capitals and digits from `i` to `run` ends in a capital that opens
/// a new word.
pub open spec fn breaks_acronym(s: Seq<char>, i: int, run: int) -> bool {
    i + 1 < run < s.len() && is_upper(s[run - 1]) && is_lower(s[run])
}

/// From `i` on, `_` before the last capital of each run of capitals that a
/// lower-case letter follows: `([A-Z\d]+)([A-Z][a-z])` becomes `\1_\2`.
pub open spec fn split_acronyms(s: Seq<char>, i: int) -> Seq<char>
    decreases s.len() - i,
{
    let run = capital_run(s, i);
    if i < 0 || i >= s.len() {
        Seq::empty()
    } else if breaks_acronym(s, i, run) {
        s.subrange(i, run - 1) + seq!['_', s[run - 1], s[run]] + split_acronyms(s, run + 1)
    } else {
        seq![s[i]] + split_acronyms(s, i + 1)
    }
}

/// A word ends at `j`: a capital follows a lower-case letter or a digit.
pub open spec fn breaks_word(s: Seq<char>, j: int) -> bool {
    (is_lower(s[j]) || is_digit(s[j])) && j + 1 < s.len() && is_upper(s[j + 1])
}

/// From `j` on, `_` between a lower-case letter or digit and a capital:
/// `([a-z\d])([A-Z])` becomes `\1_\2`.
pub open spec fn split_words(s: Seq<char>, j: int) -> Seq<char>
    decreases s.len() - j,
{
    if j < 0 || j >= s.len() {
        Seq::empty()
    } else if breaks_word(s, j) {
        seq![s[j], '_', s[j + 1]] + split_words(s, j + 2)
    } else {
        seq![s[j]] + split_words(s, j + 1)
    }
}

/// The text holds a capital, a hyphen or a `::`.
pub open spec fn needs_underscore(word: Seq<char>) -> bool {
    (exists|i: int| 0 <= i < word.len() && (is_upper(#[trigger] word[i]) || word[i] == '-'))
        || has_text(word, "::"@)
}

/// A constant name with `_` between its words, and `/` for each `::`.
pub open spec fn snake_of(word: Seq<char>) -> Seq<char> {
    let path = replace_of(word, "::"@, "/"@);
    swap_char_of(split_words(split_acronyms(path, 0), 0), '-', '_')
}

/// The snake-case form of a constant name.
pub open spec fn underscore_of(word: Seq<char>) -> Seq<char> {
    if !needs_underscore(word) {
        word
    } else {
        lowercase_of(snake_of(word))
    }
}

/// The snake-case form of an ASCII name.
pub open spec fn ascii_underscore_of(word: Seq<char>) -> Seq<char> {
    if !needs_underscore(word) {
        word
    } else {
        snake_of(word).map_values(|c: char| small(c))
    }
}

fn has_capital_or_hyphen(word: &str) -> (b: bool)
    ensures
        b == exists|i: int|
            0 <= i < word@.len() && (is_upper(#[trigger] word@[i]) || word@[i] == '-'),
{
    for c in it: word.chars()
        invariant
            it.seq() == word@,
            forall|i: int|
                0 <= i < it.index() ==> !is_upper(#[trigger] word@[i]) && word@[i] != '-',
    {
        if upper(c) || c == '-' {
            assert(word@[it.index() as int] == c);
            return true;
        }
    }
    false
}

fn run_end(src: &Vec<char>, i: usize) -> (run: usize)
    requires
        i <= src.len(),
    ensures
        run == capital_run(src@, i as int),
        i <= run <= src.len(),
{
    let mut run: usize = i;
    while run < src.len() && (upper(src[run]) || digit(src[run]))
        invariant
            i <= run <= src.len(),
            capital_run(src@, i as int) == capital_run(src@, run as int),
        decreases src.len() - run,
    {
        run = run + 1;
    }
    run
}

fn break_acronyms(src: &Vec<char>) -> (out: Vec<char>)
    ensures
        out@ == split_acronyms(src@, 0),
{
    let mut a: Vec<char> = Vec::new();
    let mut i: usize = 0;
    while i < src.len()
        invariant
            i <= src.len(),
            a@ + split_acronyms(src@, i as int) == split_acronyms(src@, 0),
        decreases src.len() - i,
    {
        let ghost before = a@;
        let run = run_end(src, i);
        if run > i + 1 && run < src.len() && upper(src[run - 1]) && lower(src[run]) {
            let mut k: usize = i;
            while k < run - 1
                invariant
                    i <= k <= run - 1,
                    run < src.len(),
                    a@ == before + src@.subrange(i as int, k as int),
                decreases run - k,
            {
                a.push(src[k]);
                k = k + 1;
            }
            a.push('_');
            a.push(src[run - 1]);
            a.push(src[run]);
            proof {
                let tail = split_acronyms(src@, run + 1);
                assert(a@ + tail =~= before + (src@.subrange(i as int, run - 1) + seq![
                    '_',
                    src@[run - 1],
                    src@[run as int],
                ] + tail));
            }
            i = run + 1;
        } else {
            a.push(src[i]);
            proof {
                let tail = split_acronyms(src@, i + 1);
                assert(a@ + tail =~= before + (seq![src@[i as int]] + tail));
            }
            i = i + 1;
        }
    }
    a
}

fn break_words(a: &Vec<char>) -> (out: String)
    ensures
        out@ == split_words(a@, 0),
{
    let mut b = String::new();
    let mut j: usize = 0;
    assert(b@ + split_words(a@, 0) =~= split_words(a@, 0));
    while j < a.len()
        invariant
            j <= a.len(),
            b@ + split_words(a@, j as int) == split_words(a@, 0),
        decreases a.len() - j,
    {
        let ghost before = b@;
        b.push(a[j]);
        if (lower(a[j]) || digit(a[j])) && j + 1 < a.len() && upper(a[j + 1]) {
            b.push('_');
            b.push(a[j + 1]);
            proof {
                let tail = split_words(a@, j + 2);
                assert(b@ + tail =~= before + (seq![a@[j as int], '_', a@[j + 1]] + tail));
            }
            j = j + 2;
        } else {
            proof {
                let tail = split_words(a@, j + 1);
                assert(b@ + tail =~= before + (seq![a@[j as int]] + tail));
            }
            j = j + 1;
        }
    }
    b
}

/// `ActiveSupport::Inflector#underscore` with an empty list of acronyms:
///
/// ```text
/// gsub("::", "/")
/// gsub(/([A-Z\d]+)([A-Z][a-z])/, '\1_\2')
/// gsub(/([a-z\d])([A-Z])/, '\1_\2')
/// tr("-", "_"); downcase
/// ```
///
/// A word without a capital, a hyphen and a `::` comes back as it is, and the
/// form of every word is such a word, so that doing it twice is doing it once.
pub fn underscore(word: &str) -> (out: String)
    ensures
        out@ == underscore_of(word@),
        is_ascii(word@) ==> out@ == ascii_underscore_of(word@),
        !needs_underscore(word@) ==> out@ == word@,
        !needs_underscore(out@),
        underscore_of(out@) == out@,
{
    if !has_capital_or_hyphen(word) && !contains(word, "::") {
        return word.to_owned();
    }
    proof {
        reveal_strlit("::");
    }
    let path = replace(word, "::", "/");
    let b = break_words(&break_acronyms(&chars_of(&path)));
    let snake = swap_char(&b, '-', '_');
    let out = lowercase(&snake);
    proof {
        assert(snake@ == snake_of(word@));
        replaced_colons(word@);
        acronyms_stay_apart(path@, 0);
        words_stay_apart(split_acronyms(path@, 0), 0);
        assert(!snake@.contains('-')) by {
            assert forall|i: int| 0 <= i < snake@.len() implies #[trigger] snake@[i] != '-' by {
                assert(snake@[i] == if b@[i] == '-' {
                    '_'
                } else {
                    b@[i]
                });
            }
        }
        assert(apart(snake@)) by {
            assert forall|i: int|
                #![trigger snake@[i]]
                0 <= i < snake@.len() - 1 implies !(snake@[i] == ':' && snake@[i + 1] == ':') by {
                assert(!(b@[i] == ':' && b@[i + 1] == ':'));
            }
        }
        apart_holds_no_pair(snake@);
        assert forall|i: int| 0 <= i < out@.len() implies #[trigger] out@[i] != '-' by {
            assert(out@[i] == '-' ==> out@.contains(out@[i]));
        }
        if is_ascii(word@) {
            assert forall|i: int| 0 <= i < snake@.len() implies #[trigger] snake@[i] < '\u{80}' by {
                assert(b@[i] < '\u{80}');
            }
            assert(is_ascii(snake@));
            assert(out@ =~= ascii_underscore_of(word@));
        }
    }
    out
}

/// No two colons stand side by side.
spec fn apart(s: Seq<char>) -> bool {
    forall|i: int| #![trigger s[i]] 0 <= i < s.len() - 1 ==> !(s[i] == ':' && s[i + 1] == ':')
}

proof fn apart_holds_no_pair(s: Seq<char>)
    ensures
        apart(s) <==> !has_text(s, "::"@),
{
    reveal_strlit("::");
    find_is_first(s, "::"@, 0);
    if has_text(s, "::"@) {
        let i = find_from_of(s, "::"@, 0)->Some_0;
        assert(s.subrange(i, i + 2)[0] == s[i]);
        assert(s.subrange(i, i + 2)[1] == s[i + 1]);
    }
    if !apart(s) {
        let i = choose|i: int|
            #![trigger s[i]]
            0 <= i < s.len() - 1 && s[i] == ':' && s[i + 1] == ':';
        assert(s.subrange(i, i + 2) =~= "::"@);
        assert(occurs_at(s, "::"@, i));
    }
}

proof fn joined_stay_apart(a: Seq<char>, b: Seq<char>)
    requires
        apart(a),
        apart(b),
        a.len() > 0 && b.len() > 0 ==> !(a.last() == ':' && b[0] == ':'),
    ensures
        apart(a + b),
        is_ascii(a) && is_ascii(b) ==> is_ascii(a + b),
{
    let all = a + b;
    assert forall|i: int| #![trigger all[i]] 0 <= i < all.len() - 1 implies !(all[i] == ':' && all[
    i + 1] == ':') by {
        if i + 1 < a.len() {
            assert(a[i] == all[i] && a[i + 1] == all[i + 1]);
        } else if i >= a.len() {
            assert(b[i - a.len()] == all[i] && b[i - a.len() + 1] == all[i + 1]);
        }
    }
}

proof fn replaced_colons(s: Seq<char>)
    ensures
        apart(replace_of(s, "::"@, "/"@)),
        is_ascii(s) ==> is_ascii(replace_of(s, "::"@, "/"@)),
    decreases s.len(),
{
    reveal_strlit("::");
    reveal_strlit("/");
    find_is_first(s, "::"@, 0);
    match find_from_of(s, "::"@, 0) {
        None => {
            apart_holds_no_pair(s);
        },
        Some(i) => {
            let head = s.take(i);
            let rest = s.skip(i + 2);
            replaced_colons(rest);
            assert forall|k: int|
                #![trigger head[k]]
                0 <= k < head.len() - 1 implies !(head[k] == ':' && head[k + 1] == ':') by {
                if head[k] == ':' && head[k + 1] == ':' {
                    assert(s.subrange(k, k + 2) =~= "::"@);
                    assert(occurs_at(s, "::"@, k));
                }
            }
            joined_stay_apart(head, "/"@);
            joined_stay_apart(head + "/"@, replace_of(rest, "::"@, "/"@));
        },
    }
}

proof fn run_is_capital(s: Seq<char>, i: int)
    requires
        0 <= i <= s.len(),
    ensures
        i <= capital_run(s, i) <= s.len(),
        forall|k: int|
            i <= k < capital_run(s, i) ==> is_upper(#[trigger] s[k]) || is_digit(s[k]),
    decreases s.len() - i,
{
    if i < s.len() && (is_upper(s[i]) || is_digit(s[i])) {
        run_is_capital(s, i + 1);
    }
}

proof fn acronyms_stay_apart(s: Seq<char>, i: int)
    requires
        apart(s),
        0 <= i <= s.len(),
    ensures
        apart(split_acronyms(s, i)),
        is_ascii(s) ==> is_ascii(split_acronyms(s, i)),
        i < s.len() ==> split_acronyms(s, i).len() > 0 && split_acronyms(s, i)[0] == s[i],
    decreases s.len() - i,
{
    if i < s.len() {
        run_is_capital(s, i);
        let run = capital_run(s, i);
        if breaks_acronym(s, i, run) {
            acronyms_stay_apart(s, run + 1);
            let head = s.subrange(i, run - 1);
            let joint = seq!['_', s[run - 1], s[run]];
            assert forall|k: int|
                #![trigger head[k]]
                0 <= k < head.len() implies head[k] != ':' && head[k] < '\u{80}' by {
                assert(head[k] == s[i + k]);
            }
            joined_stay_apart(head, joint);
            joined_stay_apart(head + joint, split_acronyms(s, run + 1));
        } else {
            acronyms_stay_apart(s, i + 1);
            joined_stay_apart(seq![s[i]], split_acronyms(s, i + 1));
        }
    }
}

proof fn words_stay_apart(s: Seq<char>, j: int)
    requires
        apart(s),
        0 <= j <= s.len(),
    ensures
        apart(split_words(s, j)),
        is_ascii(s) ==> is_ascii(split_words(s, j)),
        j < s.len() ==> split_words(s, j).len() > 0 && split_words(s, j)[0] == s[j],
    decreases s.len() - j,
{
    if j < s.len() {
        if breaks_word(s, j) {
            words_stay_apart(s, j + 2);
            joined_stay_apart(seq![s[j], '_', s[j + 1]], split_words(s, j + 2));
        } else {
            words_stay_apart(s, j + 1);
            joined_stay_apart(seq![s[j]], split_words(s, j + 1));
        }
    }
}

// ---------------------------------------------------------------------- laws

proof fn split_then_join_parts(s: Seq<char>)
    ensures
        join_of(split_of(s, '.'), "."@) == s,
        split_of(s, '.').len() >= 1,
    decreases s.len(),
{
    position_is_first(s, '.');
    let i = position_of(s, '.');
    reveal_strlit(".");
    if i < s.len() {
        split_then_join_parts(s.skip(i + 1));
        join_with_head(s.take(i), split_of(s.skip(i + 1), '.'));
        assert(s.take(i) + "."@ + s.skip(i + 1) =~= s);
    }
}

proof fn join_with_head(head: Seq<char>, tail: Seq<Seq<char>>)
    requires
        tail.len() >= 1,
    ensures
        join_of(seq![head] + tail, "."@) == head + "."@ + join_of(tail, "."@),
    decreases tail.len(),
{
    let all = seq![head] + tail;
    if tail.len() == 1 {
        assert(all.drop_last() =~= seq![head]);
        assert(join_of(all.drop_last(), "."@) == head);
        assert(join_of(all, "."@) =~= head + "."@ + tail[0]);
    } else {
        assert(all.drop_last() =~= seq![head] + tail.drop_last());
        join_with_head(head, tail.drop_last());
        assert(join_of(all, "."@) =~= head + "."@ + join_of(tail, "."@));
    }
}

pub(crate) proof fn separator_found(key: Seq<char>, from: int)
    requires
        0 <= from <= key.len(),
    ensures
        from <= next_separator(key, from) <= key.len(),
        next_separator(key, from) < key.len() ==> separates(key, next_separator(key, from)),
    decreases key.len() - from,
{
    if from < key.len() && !separates(key, from) {
        separator_found(key, from + 1);
    }
}

/// The key ends in a dot that separates, so no segment follows it.
pub open spec fn ends_in_separator(key: Seq<char>) -> bool {
    key.len() > 0 && separates(key, key.len() - 1)
}

proof fn segments_then_join(key: Seq<char>, from: int, count: nat)
    requires
        0 <= from < key.len(),
    ensures
        segments_from(key, from, count, 0).len() >= 1,
        join_of(segments_from(key, from, count, 0), "."@) == if ends_in_separator(key) {
            key.subrange(from, key.len() - 1)
        } else {
            key.skip(from)
        },
    decreases key.len() - from,
{
    reveal_strlit(".");
    separator_found(key, from);
    let dot = next_separator(key, from);
    let segments = segments_from(key, from, count, 0);
    if dot >= key.len() {
        split_then_join_parts(key.skip(from));
        if ends_in_separator(key) {
            no_separator_before(key, from, key.len() - 1);
        }
    } else if dot + 1 < key.len() {
        segments_then_join(key, dot + 1, count + 1);
        let tail = segments_from(key, dot + 1, count + 1, 0);
        join_with_head(key.subrange(from, dot), tail);
        assert(key.subrange(from, dot) + "."@ + key.skip(dot + 1) =~= key.skip(from));
        assert(key.subrange(from, dot) + "."@ + key.subrange(dot + 1, key.len() - 1)
            =~= key.subrange(from, key.len() - 1));
    } else {
        assert(segments =~= seq![key.subrange(from, dot)]);
    }
}

pub(crate) proof fn no_separator_before(key: Seq<char>, from: int, at: int)
    requires
        0 <= from <= at < key.len(),
        next_separator(key, from) > at,
    ensures
        !separates(key, at),
    decreases at - from,
{
    if from < at {
        no_separator_before(key, from + 1, at);
    }
}

/// Joining the segments of a key with dots gives the key back, less a dot that
/// ends it.
pub proof fn segments_join_to_the_key(key: Seq<char>)
    ensures
        join_of(split_key_of(key), "."@) == if ends_in_separator(key) {
            key.drop_last()
        } else {
            key
        },
{
    if key.len() == 0 {
        assert(split_key_of(key) =~= Seq::empty());
    } else {
        segments_then_join(key, 0, 0);
        assert(key.skip(0) =~= key);
        assert(key.subrange(0, key.len() - 1) =~= key.drop_last());
    }
}

proof fn segment_count(key: Seq<char>, from: int, count: nat, max: nat)
    requires
        0 <= from <= key.len(),
        count + 2 <= max,
        awaited(key, key.len() as int) is None,
    ensures
        count + segments_from(key, from, count, max).len() <= max,
    decreases key.len() - from,
{
    separator_found(key, from);
    let dot = next_separator(key, from);
    if dot < key.len() && count + 2 != max {
        segment_count(key, dot + 1, count + 1, max);
    }
}

/// A limit is kept: a key whose brackets are closed has at most `max` parts.
pub proof fn split_keeps_the_limit(key: Seq<char>, max: nat)
    requires
        max >= 1,
        awaited(key, key.len() as int) is None,
    ensures
        split_key_max_of(key, max).len() <= max,
{
    if max > 1 {
        segment_count(key, 0, 0, max);
    }
}

/// The key holds no bracket that opens.
pub open spec fn has_no_brackets(key: Seq<char>) -> bool {
    forall|i: int| 0 <= i < key.len() ==> closing_of(#[trigger] key[i]) is None
}

/// How many dots stand in the key from `from` on.
pub open spec fn dots_from(key: Seq<char>, from: int) -> nat
    decreases key.len() - from,
{
    if from < 0 || from >= key.len() {
        0
    } else if key[from] == '.' {
        1 + dots_from(key, from + 1)
    } else {
        dots_from(key, from + 1)
    }
}

proof fn nothing_is_awaited(key: Seq<char>, i: int)
    requires
        has_no_brackets(key),
        i <= key.len(),
    ensures
        awaited(key, i) is None,
    decreases i,
{
    if i > 0 {
        nothing_is_awaited(key, i - 1);
    }
}

proof fn separator_is_the_next_dot(key: Seq<char>, from: int)
    requires
        has_no_brackets(key),
        0 <= from <= key.len(),
    ensures
        from <= next_separator(key, from) <= key.len(),
        next_separator(key, from) < key.len() ==> key[next_separator(key, from)] == '.',
        !key.subrange(from, next_separator(key, from)).contains('.'),
        dots_from(key, from) == if next_separator(key, from) < key.len() {
            1 + dots_from(key, next_separator(key, from) + 1)
        } else {
            0
        },
    decreases key.len() - from,
{
    let dot = next_separator(key, from);
    if from < key.len() {
        nothing_is_awaited(key, from);
        if !separates(key, from) {
            separator_is_the_next_dot(key, from + 1);
            let part = key.subrange(from, dot);
            if part.contains('.') {
                let k = part.index_of('.');
                assert(k > 0);
                assert(key.subrange(from + 1, dot)[k - 1] == '.');
            }
        }
    }
}

/// Every part but the last holds no dot, and the last one holds none while the
/// limit is not reached.
pub open spec fn parts_hold_no_dot(parts: Seq<Seq<char>>, max: nat) -> bool {
    forall|i: int|
        0 <= i < parts.len() && (i < parts.len() - 1 || parts.len() < max)
            ==> !(#[trigger] parts[i]).contains('.')
}

proof fn limited_segments(key: Seq<char>, from: int, count: nat, max: nat)
    requires
        has_no_brackets(key),
        0 <= from < key.len(),
        count + 2 <= max,
    ensures
        segments_from(key, from, count, max).len() >= 1,
        parts_hold_no_dot(segments_from(key, from, count, max), (max - count) as nat),
        join_of(segments_from(key, from, count, max), "."@) == key.skip(from) || key.last() == '.'
            && join_of(segments_from(key, from, count, max), "."@) == key.subrange(
            from,
            key.len() - 1,
        ),
    decreases key.len() - from,
{
    reveal_strlit(".");
    separator_is_the_next_dot(key, from);
    nothing_is_awaited(key, key.len() as int);
    let dot = next_separator(key, from);
    let parts = segments_from(key, from, count, max);
    if dot >= key.len() {
        assert(key.skip(from) =~= key.subrange(from, dot));
        assert(parts =~= seq![key.skip(from)]);
        assert(join_of(parts, "."@) == key.skip(from));
    } else {
        let first = key.subrange(from, dot);
        if dot + 1 == key.len() {
            assert(key.skip(dot + 1) =~= Seq::empty());
            assert(segments_from(key, dot + 1, count + 1, max) =~= Seq::empty());
            assert(parts =~= seq![first]);
            assert(first =~= key.subrange(from, key.len() - 1));
            assert(join_of(parts, "."@) == first);
        } else {
            let tail = if count + 2 == max {
                seq![key.skip(dot + 1)]
            } else {
                segments_from(key, dot + 1, count + 1, max)
            };
            if count + 2 != max {
                limited_segments(key, dot + 1, count + 1, max);
            } else {
                assert(join_of(tail, "."@) == key.skip(dot + 1));
            }
            assert(parts =~= seq![first] + tail);
            join_with_head(first, tail);
            assert(first + "."@ + key.skip(dot + 1) =~= key.skip(from));
            assert(first + "."@ + key.subrange(dot + 1, key.len() - 1) =~= key.subrange(
                from,
                key.len() - 1,
            ));
            assert forall|i: int|
                0 <= i < parts.len() && (i < parts.len() - 1 || parts.len() < max
                    - count) implies !(#[trigger] parts[i]).contains('.') by {
                if i > 0 {
                    assert(parts[i] == tail[i - 1]);
                }
            }
        }
    }
}

/// A key without brackets is split at its dots as far as the limit allows, and
/// its parts join to the key, less a dot that ends it.
pub proof fn limited_parts_join_to_the_key(key: Seq<char>, max: nat)
    requires
        max >= 1,
        has_no_brackets(key),
    ensures
        split_key_max_of(key, max).len() <= max,
        parts_hold_no_dot(split_key_max_of(key, max), max),
        join_of(split_key_max_of(key, max), "."@) == key || key.len() > 0 && key.last() == '.'
            && join_of(split_key_max_of(key, max), "."@) + "."@ == key,
{
    reveal_strlit(".");
    nothing_is_awaited(key, key.len() as int);
    split_keeps_the_limit(key, max);
    let parts = split_key_max_of(key, max);
    if max == 1 {
        assert(join_of(parts, "."@) == key);
    } else if key.len() == 0 {
        assert(parts =~= Seq::empty());
        assert(join_of(parts, "."@) =~= key);
    } else {
        limited_segments(key, 0, 0, max);
        assert(key.skip(0) =~= key);
        assert(key.last() == '.' ==> key.subrange(0, key.len() - 1) + "."@ =~= key);
    }
}

proof fn a_wide_limit_binds_nothing(key: Seq<char>, from: int, count: nat, max: nat)
    requires
        has_no_brackets(key),
        0 <= from <= key.len(),
        count + dots_from(key, from) + 2 <= max,
    ensures
        segments_from(key, from, count, max) == segments_from(key, from, count, 0),
    decreases key.len() - from,
{
    separator_is_the_next_dot(key, from);
    let dot = next_separator(key, from);
    if dot < key.len() {
        a_wide_limit_binds_nothing(key, dot + 1, count + 1, max);
    }
}

/// A limit of two more than there are dots is none.
pub proof fn a_limit_above_the_dots_is_none(key: Seq<char>, max: nat)
    requires
        has_no_brackets(key),
        dots_from(key, 0) + 2 <= max,
    ensures
        split_key_max_of(key, max) == split_key_of(key),
{
    a_wide_limit_binds_nothing(key, 0, 0, max);
}

} // verus!
