//! How the locale files, the locale codes and the sources of a project are
//! read.
use crate::init::layout::{
    after_blanks, byte_at, default_locale_of, ends_in_locale, is_ident, is_language, is_locale_code,
    is_name_char, is_read_back, is_subtag, name_behind, name_end, relative_call, rest_of_translate,
    shape_of, stem_of, tags_of, write_target_of, Shape,
};
use crate::laws::loading::names_are_split_again;
use crate::text::{
    find_from_of, is_alnum, is_lower, is_space, join_of, last_position_of, position_is_first,
    position_of, split_last_of, split_of, swap_char_of, trim_start_of,
};
use vstd::prelude::*;

verus! {

// --------------------------------------------------------------------- locale codes

proof fn nothing_to_swap(s: Seq<char>)
    requires
        !s.contains('_'),
    ensures
        swap_char_of(s, '_', '-') == s,
{
    let t = swap_char_of(s, '_', '-');
    assert forall|i: int| 0 <= i < s.len() implies t[i] == s[i] by {
        assert(s.contains(s[i]));
    }
    assert(t =~= s);
}

proof fn joined_holds_no_other(names: Seq<Seq<char>>, c: char)
    requires
        c != '-',
        forall|i: int| 0 <= i < names.len() ==> !(#[trigger] names[i]).contains(c),
    ensures
        !join_of(names, "-"@).contains(c),
    decreases names.len(),
{
    reveal_strlit("-");
    if names.len() == 1 {
        assert(!names[0].contains(c));
    } else if names.len() > 1 {
        let head = names.drop_last();
        assert forall|i: int| 0 <= i < head.len() implies !(#[trigger] head[i]).contains(c) by {
            assert(head[i] == names[i]);
        }
        joined_holds_no_other(head, c);
        let front = join_of(head, "-"@);
        let all = join_of(names, "-"@);
        let last = names.last();
        assert(!names[names.len() - 1].contains(c));
        if all.contains(c) {
            let k = all.index_of(c);
            if k < front.len() {
                assert(front[k] == c);
            } else if k > front.len() {
                assert(last[k - front.len() - 1] == c);
            }
        }
    }
}

/// A locale code is a language of two or three small letters, and behind it
/// parts of two to eight letters or digits, with a dash between them.
pub proof fn what_a_locale_code_is(names: Seq<Seq<char>>)
    requires
        names.len() > 0,
        forall|i: int|
            0 <= i < names.len() ==> !(#[trigger] names[i]).contains('-') && !names[i].contains('_'),
    ensures
        is_locale_code(join_of(names, "-"@)) <==> {
            &&& 2 <= names[0].len() <= 3
            &&& forall|k: int| 0 <= k < names[0].len() ==> is_lower(#[trigger] names[0][k])
            &&& forall|i: int|
                1 <= i < names.len() ==> 2 <= (#[trigger] names[i]).len() <= 8 && forall|k: int|
                    0 <= k < names[i].len() ==> is_alnum(#[trigger] names[i][k])
        },
{
    reveal_strlit("-");
    let s = join_of(names, "-"@);
    assert forall|i: int| 0 <= i < names.len() implies !(#[trigger] names[i]).contains('_') by {
        assert(!names[i].contains('-'));
    }
    joined_holds_no_other(names, '_');
    nothing_to_swap(s);
    assert("-"@ =~= seq!['-']);
    names_are_split_again(names, "-"@, '-');
    assert(tags_of(s) == names);
    if is_locale_code(s) {
        assert forall|i: int| 1 <= i < names.len() implies 2 <= (#[trigger] names[i]).len() <= 8
            && forall|k: int| 0 <= k < names[i].len() ==> is_alnum(#[trigger] names[i][k]) by {
            assert(is_subtag(names[i]));
        }
    } else {
        if is_language(names[0]) {
            let i = choose|i: int| 1 <= i < names.len() && !is_subtag(#[trigger] names[i]);
            assert(!is_subtag(names[i]));
        }
    }
}

/// An underscore in a locale code is as good as a dash.
pub proof fn an_underscore_is_a_dash(s: Seq<char>)
    ensures
        is_locale_code(s) <==> is_locale_code(
            s.map_values(
                |c: char|
                    if c == '_' {
                        '-'
                    } else {
                        c
                    },
            ),
        ),
{
    let t = swap_char_of(s, '_', '-');
    assert(swap_char_of(t, '_', '-') =~= t);
    assert(t =~= s.map_values(
        |c: char|
            if c == '_' {
                '-'
            } else {
                c
            },
    ));
}

proof fn a_code_has_no_dot(s: Seq<char>)
    requires
        is_locale_code(s),
    ensures
        !s.contains('.'),
        !s.contains('/'),
{
    let t = swap_char_of(s, '_', '-');
    let tags = split_of(t, '-');
    assert forall|i: int| 0 <= i < tags.len() implies !(#[trigger] tags[i]).contains('.')
        && !tags[i].contains('/') by {
        assert(tags[0] == tags_of(s)[0]);
        if i > 0 {
            assert(is_subtag(tags[i]));
        }
        if tags[i].contains('.') {
            let k = tags[i].index_of('.');
            assert(is_alnum(tags[i][k]));
        }
        if tags[i].contains('/') {
            let k = tags[i].index_of('/');
            assert(is_alnum(tags[i][k]));
        }
    }
    parts_hold_every_character(t, '-', '.');
    parts_hold_every_character(t, '-', '/');
    if s.contains('.') {
        let k = s.index_of('.');
        assert(t[k] == '.');
    }
    if s.contains('/') {
        let k = s.index_of('/');
        assert(t[k] == '/');
    }
}

proof fn parts_hold_every_character(s: Seq<char>, sep: char, c: char)
    requires
        c != sep,
        forall|i: int| 0 <= i < split_of(s, sep).len() ==> !(#[trigger] split_of(s, sep)[i]).contains(
            c,
        ),
    ensures
        !s.contains(c),
    decreases s.len(),
{
    let i = position_of(s, sep);
    position_is_first(s, sep);
    let parts = split_of(s, sep);
    if i < s.len() {
        let rest = s.skip(i + 1);
        let more = split_of(rest, sep);
        assert(parts == seq![s.take(i)] + more);
        assert(!parts[0].contains(c));
        assert forall|k: int| 0 <= k < more.len() implies !(#[trigger] more[k]).contains(c) by {
            assert(parts[k + 1] == more[k]);
        }
        parts_hold_every_character(rest, sep, c);
        if s.contains(c) {
            let k = s.index_of(c);
            if k < i {
                assert(s.take(i)[k] == c);
            } else if k > i {
                assert(rest[k - i - 1] == c);
            }
        }
    } else {
        assert(parts[0] == s);
    }
}

// -------------------------------------------------------------------------- layouts

proof fn the_last_one(a: Seq<char>, c: char, b: Seq<char>)
    requires
        !b.contains(c),
    ensures
        split_last_of(a + seq![c] + b, c) == Some((a, b)),
    decreases b.len(),
{
    let s = a + seq![c] + b;
    last_is(s, a.len() as int, c);
    assert(s.take(a.len() as int) =~= a);
    assert(s.skip(a.len() as int + 1) =~= b);
}

proof fn last_is(s: Seq<char>, i: int, c: char)
    requires
        0 <= i < s.len(),
        s[i] == c,
        !s.skip(i + 1).contains(c),
    ensures
        last_position_of(s, c) == i,
    decreases s.len(),
{
    if i < s.len() - 1 {
        let tail = s.skip(i + 1);
        assert(tail[tail.len() - 1] == s.last());
        assert(s.last() != c);
        let head = s.drop_last();
        let less = head.skip(i + 1);
        if less.contains(c) {
            let k = less.index_of(c);
            assert(tail[k] == c);
        }
        last_is(head, i, c);
    }
}

proof fn there_is_none(s: Seq<char>, c: char)
    requires
        !s.contains(c),
    ensures
        last_position_of(s, c) == -1,
        split_last_of(s, c) is None,
    decreases s.len(),
{
    if s.len() > 0 {
        assert(s.contains(s.last()));
        let head = s.drop_last();
        if head.contains(c) {
            assert(s[head.index_of(c)] == c);
        }
        there_is_none(head, c);
    }
}

proof fn a_locale_names_the_file(locale: Seq<char>, ext: Seq<char>)
    requires
        is_locale_code(locale),
        !ext.contains('.') && !ext.contains('/'),
    ensures
        !(locale + seq!['.'] + ext).contains('/'),
        stem_of(locale + seq!['.'] + ext) == locale,
{
    a_code_has_no_dot(locale);
    let flat = locale + seq!['.'] + ext;
    if flat.contains('/') {
        let k = flat.index_of('/');
        if k < locale.len() {
            assert(locale[k] == '/');
        } else if k > locale.len() {
            assert(ext[k - locale.len() - 1] == '/');
        }
    }
    the_last_one(locale, '.', ext);
}

proof fn a_locale_ends_the_name(name: Seq<char>, locale: Seq<char>, ext: Seq<char>)
    requires
        is_locale_code(locale),
        !name.contains('/'),
        !ext.contains('.') && !ext.contains('/'),
    ensures
        ({
            let named = name + seq!['.'] + locale + seq!['.'] + ext;
            &&& !named.contains('/')
            &&& ends_in_locale(stem_of(named))
            &&& !is_locale_code(stem_of(named))
        }),
{
    a_code_has_no_dot(locale);
    let named = name + seq!['.'] + locale + seq!['.'] + ext;
    let inner = name + seq!['.'] + locale;
    if named.contains('/') {
        let k = named.index_of('/');
        let a = name.len() as int;
        let b = locale.len() as int;
        if k < a {
            assert(name[k] == '/');
        } else if a < k && k < a + 1 + b {
            assert(locale[k - a - 1] == '/');
        } else if k > a + 1 + b {
            assert(ext[k - a - b - 2] == '/');
        }
    }
    the_last_one(inner, '.', ext);
    the_last_one(name, '.', locale);
    if is_locale_code(inner) {
        a_code_has_no_dot(inner);
        assert(inner[name.len() as int] == '.');
    }
}

/// A file without a directory is named by its locale, or has it in front of its
/// extension.
pub proof fn a_file_is_told_by_its_name(name: Seq<char>, locale: Seq<char>, ext: Seq<char>)
    requires
        is_locale_code(locale),
        !name.contains('/'),
        !ext.contains('.') && !ext.contains('/'),
    ensures
        shape_of(locale + seq!['.'] + ext) == Some(Shape::Flat),
        shape_of(name + seq!['.'] + locale + seq!['.'] + ext) == Some(Shape::Namespaced),
{
    a_locale_names_the_file(locale, ext);
    a_locale_ends_the_name(name, locale, ext);
    there_is_none(locale + seq!['.'] + ext, '/');
    there_is_none(name + seq!['.'] + locale + seq!['.'] + ext, '/');
}

/// A file under a directory that is named by a locale belongs to it, whatever
/// its own name.
pub proof fn a_file_is_told_by_its_first_directory(
    locale: Seq<char>,
    more: Seq<char>,
    file: Seq<char>,
)
    requires
        is_locale_code(locale),
        !file.contains('/'),
    ensures
        shape_of(locale + seq!['/'] + file) == Some(Shape::LocaleDir),
        shape_of(locale + seq!['/'] + more + seq!['/'] + file) == Some(Shape::LocaleDirDeep),
{
    a_code_has_no_dot(locale);
    the_last_one(locale, '/', file);
    assert(locale.len() > 0) by {
        let tags = tags_of(locale);
        if locale.len() == 0 {
            assert(swap_char_of(locale, '_', '-') =~= locale);
            position_is_first(locale, '-');
            assert(tags[0].len() == 0);
        }
    }
    position_is_first(locale, '/');
    assert(split_of(locale, '/')[0] == locale);
    let deep = locale + seq!['/'] + more;
    the_last_one(deep, '/', file);
    assert(deep[locale.len() as int] == '/');
    position_is_first(deep, '/');
    assert(position_of(deep, '/') == locale.len()) by {
        let p = position_of(deep, '/');
        if p < locale.len() {
            assert(deep[p] == locale[p]);
        }
    }
    assert(deep.take(locale.len() as int) =~= locale);
    assert(split_of(deep, '/')[0] == locale);
}

/// Under any other directory a file is told by its name again.
pub proof fn a_file_below_is_told_by_its_name(
    dir: Seq<char>,
    name: Seq<char>,
    locale: Seq<char>,
    ext: Seq<char>,
)
    requires
        is_locale_code(locale),
        !name.contains('/'),
        !ext.contains('.') && !ext.contains('/'),
        dir.len() > 0,
        !is_locale_code(split_of(dir, '/')[0]),
    ensures
        shape_of(dir + seq!['/'] + (locale + seq!['.'] + ext)) == Some(Shape::SubdirFlat),
        shape_of(dir + seq!['/'] + (name + seq!['.'] + locale + seq!['.'] + ext)) == Some(
            Shape::SubdirNamespaced,
        ),
{
    a_locale_names_the_file(locale, ext);
    a_locale_ends_the_name(name, locale, ext);
    the_last_one(dir, '/', locale + seq!['.'] + ext);
    the_last_one(dir, '/', name + seq!['.'] + locale + seq!['.'] + ext);
}

// --------------------------------------------------------------- the default locale

proof fn blanks_are_trimmed(blanks: Seq<char>, rest: Seq<char>)
    requires
        forall|i: int| 0 <= i < blanks.len() ==> is_space(#[trigger] blanks[i]),
        rest.len() > 0,
        !is_space(rest[0]),
    ensures
        trim_start_of(blanks + rest) == rest,
    decreases blanks.len(),
{
    let s = blanks + rest;
    if blanks.len() == 0 {
        assert(s =~= rest);
    } else {
        let less = blanks.skip(1);
        assert(s[0] == blanks[0]);
        assert(s.subrange(1, s.len() as int) =~= less + rest);
        assert forall|i: int| 0 <= i < less.len() implies is_space(#[trigger] less[i]) by {
            assert(less[i] == blanks[i + 1]);
        }
        blanks_are_trimmed(less, rest);
    }
}

proof fn a_name_ends(name: Seq<char>, rest: Seq<char>)
    requires
        forall|i: int| 0 <= i < name.len() ==> is_name_char(#[trigger] name[i]),
        rest.len() == 0 || !is_name_char(rest[0]),
    ensures
        name_end(name + rest) == name.len(),
    decreases name.len(),
{
    let s = name + rest;
    if name.len() == 0 {
        assert(s =~= rest);
    } else {
        let less = name.skip(1);
        assert(s[0] == name[0]);
        assert(s.skip(1) =~= less + rest);
        assert forall|i: int| 0 <= i < less.len() implies is_name_char(#[trigger] less[i]) by {
            assert(less[i] == name[i + 1]);
        }
        a_name_ends(less, rest);
    }
}

/// A line assigns the locale that stands behind the first `.default_locale` and
/// `=`, as a symbol or in quotes; anything else behind them assigns none.
pub proof fn what_a_line_assigns(
    before: Seq<char>,
    left: Seq<char>,
    right: Seq<char>,
    name: Seq<char>,
    rest: Seq<char>,
    quote: char,
)
    requires
        quote == '"' || quote == '\'',
        name.len() > 0,
        forall|i: int| 0 <= i < left.len() ==> is_space(#[trigger] left[i]),
        forall|i: int| 0 <= i < right.len() ==> is_space(#[trigger] right[i]),
        forall|i: int| 0 <= i < name.len() ==> is_name_char(#[trigger] name[i]),
        rest.len() == 0 || !is_name_char(rest[0]),
    ensures
        ({
            let head = before + ".default_locale"@ + left + seq!['='] + right;
            let symbol = head + seq![':'] + name + rest;
            let text = head + seq![quote] + name + seq![quote] + rest;
            let call = head + name + rest;
            &&& find_from_of(symbol, ".default_locale"@, 0) == Some(before.len() as int)
                ==> default_locale_of(symbol) == Some(name)
            &&& find_from_of(text, ".default_locale"@, 0) == Some(before.len() as int)
                ==> default_locale_of(text) == Some(name)
            &&& find_from_of(call, ".default_locale"@, 0) == Some(before.len() as int)
                ==> default_locale_of(call) is None
        }),
{
    reveal_strlit(".default_locale");
    let marker = ".default_locale"@;
    let head = before + marker + left + seq!['='] + right;
    let n = before.len() as int + 15;
    let eq = seq!['='];
    // A symbol.
    let symbol = head + seq![':'] + name + rest;
    let a = seq![':'] + (name + rest);
    assert(symbol.skip(n) =~= left + (eq + right + a));
    blanks_are_trimmed(left, eq + right + a);
    assert((eq + right + a).skip(1) =~= right + a);
    blanks_are_trimmed(right, a);
    assert(a.skip(1) =~= name + rest);
    a_name_ends(name, rest);
    assert((name + rest).take(name.len() as int) =~= name);
    // A text.
    let text = head + seq![quote] + name + seq![quote] + rest;
    let tail = seq![quote] + rest;
    let b = seq![quote] + (name + tail);
    assert(text.skip(n) =~= left + (eq + right + b));
    blanks_are_trimmed(left, eq + right + b);
    assert((eq + right + b).skip(1) =~= right + b);
    blanks_are_trimmed(right, b);
    assert(b.skip(1) =~= name + tail);
    a_name_ends(name, tail);
    assert((name + tail)[name.len() as int] == quote);
    assert((name + tail).take(name.len() as int) =~= name);
    // Neither.
    let call = head + name + rest;
    let c = name + rest;
    assert(call.skip(n) =~= left + (eq + right + c));
    blanks_are_trimmed(left, eq + right + c);
    assert((eq + right + c).skip(1) =~= right + c);
    assert(is_name_char(name[0]));
    blanks_are_trimmed(right, c);
}

// ------------------------------------------------------------------ relative calls

/// The names of a call, as bytes.
pub open spec fn is_call_name(name: Seq<u8>) -> bool {
    ||| name == seq![116u8]
    ||| name == seq![116u8, 33u8]
    ||| name == seq![116u8, 114u8, 97u8, 110u8, 115u8, 108u8, 97u8, 116u8, 101u8]
    ||| name == seq![116u8, 114u8, 97u8, 110u8, 115u8, 108u8, 97u8, 116u8, 101u8, 33u8]
}

proof fn blanks_end(bytes: Seq<u8>, i: int, j: int)
    requires
        0 <= i <= j < bytes.len(),
        forall|k: int| i <= k < j ==> #[trigger] bytes[k] == 32,
        bytes[j] != 32,
    ensures
        after_blanks(bytes, i) == j,
    decreases j - i,
{
    if i < j {
        assert(bytes[i] == 32);
        blanks_end(bytes, i + 1, j);
    }
}

/// A call of `t` or `translate` with a text that starts with a dot is seen
/// wherever it stands: with or without a parenthesis, with any blanks, unless
/// its name is the end of a longer one.
pub proof fn a_relative_call_is_seen(
    before: Seq<u8>,
    name: Seq<u8>,
    blanks: nat,
    open: bool,
    inner: nat,
    quote: u8,
    rest: Seq<u8>,
)
    requires
        is_call_name(name),
        before.len() == 0 || !is_ident(before.last()),
        quote == 34 || quote == 39,
        !open ==> inner == 0,
    ensures
        relative_call(
            before + name + Seq::new(blanks, |i: int| 32u8) + (if open {
                seq![40u8]
            } else {
                Seq::empty()
            }) + Seq::new(inner, |i: int| 32u8) + seq![quote, 46u8] + rest,
            before.len() as int,
        ),
        before.len() > 0 ==> !relative_call(
            before.drop_last().push(95u8) + name + seq![40u8, quote, 46u8] + rest,
            before.len() as int,
        ),
{
    let paren = if open {
        seq![40u8]
    } else {
        Seq::<u8>::empty()
    };
    let gap = Seq::new(blanks, |i: int| 32u8);
    let inside = Seq::new(inner, |i: int| 32u8);
    let s = before + name + gap + paren + inside + seq![quote, 46u8] + rest;
    let i = before.len() as int;
    let e = i + name.len();
    let k = e + blanks;
    let arg = k + paren.len() + inner;
    assert(s[arg] == quote && s[arg + 1] == 46);
    assert forall|x: int| 0 <= x < name.len() implies #[trigger] s[i + x] == name[x] by {
    }
    assert(s[i] == 116) by {
        assert(s[i + 0] == name[0]);
    }
    if name.len() >= 9 {
        assert(s[i + 1] == name[1] && s[i + 2] == name[2] && s[i + 3] == name[3] && s[i + 4]
            == name[4] && s[i + 5] == name[5] && s[i + 6] == name[6] && s[i + 7] == name[7] && s[i
            + 8] == name[8]);
        assert(rest_of_translate(s, i + 1));
    } else {
        assert(!byte_at(s, i + 1, ('r' as u8))) by {
            if name.len() == 2 {
                assert(s[i + 1] == name[1]);
            } else if blanks > 0 {
                assert(s[i + 1] == 32);
            } else if open {
                assert(s[i + 1] == 40);
            } else {
                assert(s[i + 1] == quote);
            }
        }
        assert(!rest_of_translate(s, i + 1));
    }
    assert(s[e] == 32 || s[e] == 40 || s[e] == quote) by {
        if blanks > 0 {
            assert(s[e] == gap[0]);
        } else if open {
            assert(s[e] == 40);
        } else {
            assert(s[e] == quote);
        }
    }
    assert(name_behind(s, i) == e) by {
        if name.len() == 2 {
            assert(s[i + 1] == name[1]);
        }
        if name.len() == 10 {
            assert(s[i + 9] == name[9]);
        }
    }
    assert forall|x: int| e <= x < k implies #[trigger] s[x] == 32 by {
        assert(s[x] == gap[x - e]);
    }
    if open {
        assert(s[k] == 40);
        assert forall|x: int| k + 1 <= x < arg implies #[trigger] s[x] == 32 by {
            assert(s[x] == inside[x - k - 1]);
        }
        blanks_end(s, k + 1, arg);
    } else {
        assert(s[k] == quote);
    }
    blanks_end(s, e, k);
    if i > 0 {
        assert(s[i - 1] == before.last());
        let other = before.drop_last().push(95u8) + name + seq![40u8, quote, 46u8] + rest;
        assert(other[i - 1] == 95);
    }
}

// --------------------------------------------------------------------- new keys

/// The files that new keys may go to, the first that is read back before the
/// others: one named by the locale, one with the locale in its name, one in the
/// directory of the locale.
pub proof fn new_keys_go_to_the_first_file_that_is_read_back(
    dir: Seq<char>,
    ext: Seq<char>,
    base: Seq<char>,
    read: Seq<Seq<char>>,
)
    ensures
        ({
            let flat = dir + "/%{locale}."@ + ext;
            let named = dir + "/common.%{locale}."@ + ext;
            let deep = dir + "/%{locale}/common."@ + ext;
            let target = write_target_of(dir, ext, base, read);
            &&& is_read_back(read, flat, base) ==> target == Some(flat)
            &&& !is_read_back(read, flat, base) && is_read_back(read, named, base) ==> target
                == Some(named)
            &&& !is_read_back(read, flat, base) && !is_read_back(read, named, base)
                && is_read_back(read, deep, base) ==> target == Some(deep)
            &&& !is_read_back(read, flat, base) && !is_read_back(read, named, base)
                && !is_read_back(read, deep, base) ==> target is None
        }),
{
}

} // verus!
