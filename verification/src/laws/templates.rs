//! Which keys a template names: what its calls are read as, where they may
//! stand, and which lines are passed over.
use crate::laws::loading::names_are_split_again;
use crate::lineindex::line_text_of;
use crate::bytes::lossy_of;
use crate::regexes::{group, groups_at, matches_in};
use crate::scan::ruby::key::{joined_key, template_name, template_parts};
use crate::scan::template::{
    absolute_key_of, char_before, comment_rest, fits_key, is_key_char, is_valid_key, key_of_match,
    literal_text, literals_from, may_call, replaced_from, skips_line, with_key, TemplateV,
    CALL_SOURCE, LITERAL_SOURCE,
};
use crate::scan::{
    is_longest_root, last_part, lies_under, starts_a_part, without_slashes, FileScanV, OccurrenceV,
    ScanConfigV,
};
use crate::text::{
    has_text, is_alnum, is_alphabetic_of, is_alphanumeric_of, is_space, join_of, position_is_first,
    position_of, split_of, swap_char_of, trim_start_of, without_suffix,
};
use vstd::prelude::*;
use vstd::utf8::encode_utf8;

verus! {

// ------------------------------------------------------------------------ literals

/// A literal stands for what is between its quotes, a symbol for its name, and
/// an expression for an interpolation of it.
pub proof fn a_literal_stands_for_its_text(body: Seq<char>, quote: char)
    requires
        quote == '"' || quote == '\'',
    ensures
        literal_text(seq![quote] + body + seq![quote]) == body,
        literal_text(seq![':', quote] + body + seq![quote]) == body,
        body.len() > 0 && body[0] != '"' && body[0] != '\'' ==> literal_text(seq![':'] + body)
            == body,
        body.len() > 0 && (is_alnum(body[0]) || body[0] == '_' || body[0] == '@') ==> literal_text(
            body,
        ) == "#{"@ + body + "}"@,
{
    reveal_strlit(":");
    let plain = seq![quote] + body + seq![quote];
    let symbol = seq![':', quote] + body + seq![quote];
    let word = seq![':'] + body;
    assert(plain[0] == quote && plain.last() == quote);
    assert(!":"@.is_prefix_of(plain)) by {
        if ":"@.is_prefix_of(plain) {
            assert(plain.subrange(0, 1)[0] == plain[0]);
        }
    }
    assert(plain.subrange(1, plain.len() - 1) =~= body);
    assert(symbol.subrange(0, 1) =~= ":"@);
    assert(symbol.skip(1) =~= plain);
    assert(word.subrange(0, 1) =~= ":"@);
    assert(word.skip(1) =~= body);
}

/// A key in quotes that starts with no dot is the key of its call, whatever the
/// file. A bare word is none, unless a scope says where it lies.
pub proof fn a_quoted_key_is_taken_as_it_is(
    key: Seq<char>,
    quote: char,
    path: Seq<char>,
    cfg: ScanConfigV,
    word: Seq<char>,
)
    requires
        quote == '"' || quote == '\'',
        key.len() == 0 || key[0] != '.',
        word.len() > 0,
        is_alnum(word[0]) || word[0] == '_',
    ensures
        key_of_match(seq![quote] + key + seq![quote], None, path, cfg) == Some(key),
        key_of_match(word, None, path, cfg) is None,
{
    reveal_strlit(".");
    a_literal_stands_for_its_text(key, quote);
    let arg = seq![quote] + key + seq![quote];
    assert(arg[0] == quote);
    if "."@.is_prefix_of(key) {
        assert(key.subrange(0, 1)[0] == key[0]);
    }
}

/// A key in quotes that starts with a dot lies under the path of its template,
/// below the longest root that the template lies under; a template under no
/// root has no such key.
pub proof fn a_relative_key_lies_under_its_template(
    rel: Seq<char>,
    quote: char,
    path: Seq<char>,
    cfg: ScanConfigV,
    root: int,
)
    requires
        quote == '"' || quote == '\'',
    ensures
        ({
            let key = key_of_match(seq![quote, '.'] + rel + seq![quote], None, path, cfg);
            let roots = cfg.relative_roots;
            &&& (forall|j: int| 0 <= j < roots.len() ==> !lies_under(path, #[trigger] roots[j]))
                ==> key is None
            &&& is_longest_root(roots, path, root) ==> key == Some(
                joined_key(
                    template_parts(swap_char_of(path, '\\', '/'), roots[root]) + seq![rel],
                ),
            )
        }),
{
    reveal_strlit(".");
    let body = seq!['.'] + rel;
    a_literal_stands_for_its_text(body, quote);
    let arg = seq![quote, '.'] + rel + seq![quote];
    assert(arg =~= seq![quote] + body + seq![quote]);
    assert(arg[0] == quote);
    assert(body.subrange(0, 1) =~= "."@);
    assert(body.skip(1) =~= rel);
    let roots = cfg.relative_roots;
    if is_longest_root(roots, path, root) {
        let i = choose|i: int| is_longest_root(roots, path, i);
        assert(is_longest_root(roots, path, i));
        assert(i == root) by {
            assert(lies_under(path, roots[i]) && lies_under(path, roots[root]));
        }
        let parts = template_parts(swap_char_of(path, '\\', '/'), roots[root]);
        assert(parts.push(rel) =~= parts + seq![rel]);
    }
}

proof fn the_last_part(path: Seq<char>, text: Seq<char>, from: int, i: int)
    requires
        0 <= i <= from,
        starts_a_part(path, text, i),
        forall|j: int| i < j <= from ==> !#[trigger] starts_a_part(path, text, j),
    ensures
        last_part(path, text, from) == Some(i),
    decreases from,
{
    if i < from {
        assert(!starts_a_part(path, text, from));
        the_last_part(path, text, from - 1, i);
    }
}

/// The parts of a template are its directories below the root and its name
/// without the extensions; the underscore of a partial is left out.
pub proof fn a_template_is_named_by_its_directories(
    path: Seq<char>,
    root: Seq<char>,
    i: int,
    dirs: Seq<Seq<char>>,
    stem: Seq<char>,
    extensions: Seq<char>,
    partial: bool,
)
    requires
        starts_a_part(path, without_slashes(root) + "/"@, i),
        forall|j: int| i < j ==> !#[trigger] starts_a_part(path, without_slashes(root) + "/"@, j),
        forall|k: int| 0 <= k < dirs.len() ==> !(#[trigger] dirs[k]).contains('/'),
        !stem.contains('/') && !stem.contains('.') && !extensions.contains('/'),
        !partial ==> stem.len() > 0 && stem[0] != '_',
        path.skip(i + without_slashes(root).len() + 1) == join_of(
            dirs.push(
                (if partial {
                    seq!['_']
                } else {
                    Seq::empty()
                }) + stem + seq!['.'] + extensions,
            ),
            "/"@,
        ),
    ensures
        template_parts(path, root) == dirs + seq![stem],
{
    reveal_strlit("/");
    reveal_strlit("_");
    let marker = without_slashes(root) + "/"@;
    let front = if partial {
        seq!['_']
    } else {
        Seq::<char>::empty()
    };
    let file = front + stem + seq!['.'] + extensions;
    let names = dirs.push(file);
    assert(i <= path.len());
    the_last_part(path, marker, path.len() as int, i);
    assert(marker.len() == without_slashes(root).len() + 1);
    assert(!file.contains('/')) by {
        if file.contains('/') {
            let k = file.index_of('/');
            let n = front.len() as int;
            if k >= n && k < n + stem.len() {
                assert(stem[k - n] == '/');
            } else if k > n + stem.len() {
                assert(extensions[k - n - stem.len() - 1] == '/');
            }
        }
    }
    assert forall|k: int| 0 <= k < names.len() implies !(#[trigger] names[k]).contains('/') by {
        if k < dirs.len() {
            assert(names[k] == dirs[k]);
        }
    }
    assert("/"@ =~= seq!['/']);
    names_are_split_again(names, "/"@, '/');
    assert(names.drop_last() =~= dirs);
    assert(names.last() == file);
    // The name of the file.
    let whole = front + stem;
    position_is_first(file, '.');
    let p = position_of(file, '.');
    assert(file[whole.len() as int] == '.');
    assert(p == whole.len()) by {
        if p < whole.len() {
            assert(file[p] == whole[p]);
            if p >= front.len() {
                assert(stem[p - front.len()] == '.');
            }
        }
    }
    assert(file.take(p) =~= whole);
    assert(split_of(file, '.')[0] == whole);
    assert(template_name(file) == stem) by {
        if partial {
            assert(whole.subrange(0, 1) =~= "_"@);
            assert(whole.skip(1) =~= stem);
        } else {
            assert(whole =~= stem);
            if "_"@.is_prefix_of(stem) {
                assert(stem.subrange(0, 1)[0] == stem[0]);
            }
        }
    }
    assert(dirs.push(stem) =~= dirs + seq![stem]);
}

// -------------------------------------------------------------------------- scopes

/// A character of a literal in a scope.
pub open spec fn literal_char(c: char) -> bool {
    is_key_char(c) || c == '\'' || c == '"'
}

/// A text is one literal.
pub open spec fn is_literal(s: Seq<char>) -> bool {
    &&& s.len() > 0
    &&& forall|i: int|
        0 <= i < s.len() ==> #[trigger] literal_char(s[i]) && s[i] != '[' && s[i] != ']' && s[i]
            != ','
    &&& matches_in(LITERAL_SOURCE@, encode_utf8(s))
}

proof fn a_literal_is_read(
    s: Seq<char>,
    at: int,
    word: Seq<char>,
    k: int,
    done: Seq<Seq<char>>,
    inside: bool,
)
    requires
        0 <= at,
        0 <= k <= word.len(),
        at + word.len() <= s.len(),
        s.subrange(at, at + word.len()) == word,
        is_literal(word),
    ensures
        literals_from(s, at + k, done, inside, word.take(k)) == literals_from(
            s,
            at + word.len(),
            done,
            inside,
            word,
        ),
    decreases word.len() - k,
{
    if k < word.len() {
        assert(s[at + k] == word[k]) by {
            assert(s.subrange(at, at + word.len())[k] == s[at + k]);
        }
        assert(literal_char(word[k]));
        a_literal_is_read(s, at, word, k + 1, done, inside);
        assert(word.take(k + 1) =~= word.take(k).push(word[k]));
    } else {
        assert(word.take(k) =~= word);
    }
}

/// A single literal as a scope puts its text in front of the key.
pub proof fn a_scope_stands_in_front_of_the_key(
    arg: Seq<char>,
    scope: Seq<char>,
    path: Seq<char>,
    cfg: ScanConfigV,
)
    requires
        is_literal(scope),
    ensures
        key_of_match(arg, Some(scope), path, cfg) == match absolute_key_of(
            literal_text(arg),
            path,
            cfg,
        ) {
            Some(key) => Some(literal_text(scope) + "."@ + key),
            None => None,
        },
{
    let none = Seq::<char>::empty();
    assert(scope.subrange(0, scope.len() as int) =~= scope);
    assert(scope.take(0) =~= none);
    a_literal_is_read(scope, 0, scope, 0, Seq::empty(), false);
    let parts = literals_from(scope, 0, Seq::empty(), false, none);
    assert(parts == Some(Seq::<Seq<char>>::empty().push(literal_text(scope))));
}

/// Two literals in brackets put both texts in front of the key, in their order.
pub proof fn a_list_of_scopes_stands_in_front_of_the_key(
    arg: Seq<char>,
    first: Seq<char>,
    second: Seq<char>,
    path: Seq<char>,
    cfg: ScanConfigV,
)
    requires
        is_literal(first),
        is_literal(second),
        !is_alphanumeric_of(' '),
    ensures
        key_of_match(arg, Some(seq!['['] + first + seq![',', ' '] + second + seq![']']), path, cfg)
            == match absolute_key_of(literal_text(arg), path, cfg) {
            Some(key) => Some(literal_text(first) + "."@ + literal_text(second) + "."@ + key),
            None => None,
        },
{
    let none = Seq::<char>::empty();
    let s = seq!['['] + first + seq![',', ' '] + second + seq![']'];
    let a = first.len() as int;
    let b = second.len() as int;
    assert(s[0] == '[' && s[1 + a] == ',' && s[2 + a] == ' ' && s[3 + a + b] == ']');
    assert(s.subrange(1, 1 + a) =~= first);
    assert(s.subrange(3 + a, 3 + a + b) =~= second);
    assert(first.take(0) =~= none);
    assert(second.take(0) =~= none);
    let one = Seq::<Seq<char>>::empty().push(literal_text(first));
    a_literal_is_read(s, 1, first, 0, Seq::empty(), true);
    a_literal_is_read(s, 3 + a, second, 0, one, true);
    assert(literals_from(s, 0, Seq::empty(), false, none) == literals_from(
        s,
        1,
        Seq::empty(),
        true,
        none,
    ));
    assert(literals_from(s, 1 + a, Seq::empty(), true, first) == literals_from(
        s,
        2 + a,
        one,
        true,
        none,
    ));
    assert(literals_from(s, 2 + a, one, true, none) == literals_from(s, 3 + a, one, true, none))
        by {
        assert(!is_key_char(' '));
    }
    let both = one.push(literal_text(second));
    assert(literals_from(s, 0, Seq::empty(), false, none) == Some(both));
    assert(both.drop_last() =~= one);
    assert(join_of(both, "."@) =~= literal_text(first) + "."@ + literal_text(second)) by {
        assert(join_of(one, "."@) == literal_text(first));
    }
}

// ------------------------------------------------------------------- interpolations

proof fn plain_text_stays(s: Seq<char>, i: int, n: int)
    requires
        0 <= i <= n <= s.len(),
        forall|k: int| i <= k < n ==> #[trigger] s[k] != '{' && s[k] != '}' && s[k] != '#',
    ensures
        replaced_from(s, i, 0) == s.subrange(i, n) + replaced_from(s, n, 0),
    decreases n - i,
{
    if i < n {
        plain_text_stays(s, i + 1, n);
        assert(s[i] != '{');
        assert(s.subrange(i, n) =~= seq![s[i]] + s.subrange(i + 1, n));
    } else {
        assert(s.subrange(i, n) =~= Seq::empty());
    }
}

proof fn an_expression_is_passed_over(s: Seq<char>, i: int, n: int)
    requires
        0 <= i <= n < s.len(),
        s[n] == '}',
        forall|k: int| i <= k < n ==> #[trigger] s[k] != '{' && s[k] != '}',
    ensures
        replaced_from(s, i, 1) == replaced_from(s, n + 1, 0),
    decreases n - i,
{
    if i < n {
        assert(s[i] != '{' && s[i] != '}');
        if i + 1 < n {
            assert(s[i + 1] != '{');
        }
        an_expression_is_passed_over(s, i + 1, n);
    }
}

proof fn what_follows_is_read_alike(s: Seq<char>, k: int, i: int, depth: int)
    requires
        0 <= k <= i,
        k <= s.len(),
    ensures
        replaced_from(s, i, depth) == replaced_from(s.skip(k), i - k, depth),
    decreases s.len() - i,
{
    let t = s.skip(k);
    if i < s.len() {
        assert(t[i - k] == s[i]);
        if i + 1 < s.len() {
            assert(t[i + 1 - k] == s[i + 1]);
            what_follows_is_read_alike(s, k, i + 2, depth + 1);
        }
        what_follows_is_read_alike(s, k, i + 1, depth + 1);
        what_follows_is_read_alike(s, k, i + 1, depth);
        what_follows_is_read_alike(s, k, i + 1, if depth > 0 { depth - 1 } else { 0 });
    }
}

/// An interpolation stands for any segments; the text before it stays, and what
/// follows is read the same way.
pub proof fn an_interpolation_stands_for_anything(
    before: Seq<char>,
    expression: Seq<char>,
    after: Seq<char>,
)
    requires
        forall|k: int|
            0 <= k < before.len() ==> #[trigger] before[k] != '{' && before[k] != '}' && before[k]
                != '#',
        forall|k: int|
            0 <= k < expression.len() ==> #[trigger] expression[k] != '{' && expression[k] != '}',
    ensures
        replaced_from(before, 0, 0) == before,
        ({
            let s = before + seq!['#', '{'] + expression + seq!['}'] + after;
            replaced_from(s, 0, 0) == before + "*:"@ + replaced_from(after, 0, 0)
        }),
{
    let s = before + seq!['#', '{'] + expression + seq!['}'] + after;
    let a = before.len() as int;
    let b = expression.len() as int;
    plain_text_stays(before, 0, a);
    assert(before.subrange(0, a) =~= before);
    assert(replaced_from(before, a, 0) =~= Seq::empty());
    assert(s.subrange(0, a) =~= before);
    assert forall|k: int| 0 <= k < a implies #[trigger] s[k] != '{' && s[k] != '}' && s[k]
        != '#' by {
        assert(s[k] == before[k]);
    }
    plain_text_stays(s, 0, a);
    assert(s[a] == '#' && s[a + 1] == '{' && s[a + 2 + b] == '}');
    assert forall|k: int| a + 2 <= k < a + 2 + b implies #[trigger] s[k] != '{' && s[k] != '}' by {
        assert(s[k] == expression[k - a - 2]);
    }
    an_expression_is_passed_over(s, a + 2, a + 2 + b);
    let k = a + 3 + b;
    what_follows_is_read_alike(s, k, k, 0);
    assert(s.skip(k) =~= after);
    assert(replaced_from(s, a, 0) =~= "*:"@ + replaced_from(after, 0, 0));
    assert(before + ("*:"@ + replaced_from(after, 0, 0)) =~= before + "*:"@ + replaced_from(
        after,
        0,
        0,
    ));
}

/// A key without an interpolation is a use of the key. Where it is a prefix, it
/// is one of all the keys below it, too.
pub proof fn a_static_key_is_used(out: FileScanV, key: Seq<char>, occ: OccurrenceV, prefix: Seq<char>)
    requires
        !has_text(key, "#{"@),
    ensures
        ({
            let now = with_key(out, key, occ);
            &&& now.keys == out.keys.push((key, occ))
            &&& now.opaque == out.opaque
            &&& key == prefix + seq!['.', ':'] ==> now.patterns == out.patterns.push(
                (prefix + seq!['.', '*', ':'], occ),
            )
            &&& key.len() < 2 || key.last() != ':' || key[key.len() - 2] != '.' ==> now.patterns
                == out.patterns
        }),
{
    reveal_strlit(":");
    reveal_strlit(".");
    reveal_strlit("*:");
    let n = key.len() as int;
    if n > 0 && key.last() == ':' {
        assert(key.subrange(n - 1, n) =~= ":"@);
        let head = key.take(n - 1);
        assert(without_suffix(key, ":"@) == Some(head));
        if "."@.is_suffix_of(head) {
            assert(head.subrange(n - 2, n - 1)[0] == '.');
            assert(key[n - 2] == '.');
        } else if n >= 2 && key[n - 2] == '.' {
            assert(head.subrange(n - 2, n - 1) =~= "."@);
        }
        if key == prefix + seq!['.', ':'] {
            assert(prefix + seq!['.', '*', ':'] =~= head + "*:"@);
        }
    } else {
        if ":"@.is_suffix_of(key) {
            assert(key.subrange(n - 1, n)[0] == ':');
        }
    }
}

/// A key with an interpolation is a use of all that its pattern matches; where
/// nothing of it is static, it counts as a call with an unknown key.
pub proof fn a_dynamic_key_is_a_pattern(out: FileScanV, key: Seq<char>, occ: OccurrenceV, i: int)
    requires
        has_text(key, "#{"@),
    ensures
        ({
            let now = with_key(out, key, occ);
            let pattern = replaced_from(key, 0, 0);
            &&& now.keys == out.keys
            &&& 0 <= i < pattern.len() && pattern[i] != '.' && pattern[i] != '*' && pattern[i]
                != ':' ==> now.patterns == out.patterns.push((pattern, occ)) && now.opaque
                == out.opaque
            &&& (forall|k: int|
                0 <= k < pattern.len() ==> #[trigger] pattern[k] == '.' || pattern[k] == '*'
                    || pattern[k] == ':') ==> now.opaque == out.opaque.push(occ) && now.patterns
                == out.patterns
        }),
{
}

/// A character that can be in no key makes a text none.
pub proof fn no_key_holds_such_a_character(s: Seq<char>, i: int)
    requires
        is_valid_key(s),
        0 <= i < s.len(),
    ensures
        s[i] != '"' && s[i] != '\'' && s[i] != '(' && s[i] != ')' && s[i] != ',' && s[i] != '='
            && s[i] != '<' && s[i] != '>' && s[i] != '$' && s[i] != '*' && s[i] != '%' && s[i]
            != '+' && s[i] != '&' && s[i] != '|' && s[i] != '~' && s[i] != '^' || is_alphanumeric_of(
            s[i],
        ),
        is_space(s[i]) && !is_alphanumeric_of(s[i]) && s[i] != '\u{A0}' && s[i] < '\u{C0}' ==> 0 < i
            < s.len() - 1 && is_alphanumeric_of(s[i - 1]) && is_alphanumeric_of(s[i + 1]),
{
    assert(fits_key(s, i));
}

/// Letters, digits and the marks of a key make a key.
pub proof fn names_and_marks_make_a_key(s: Seq<char>)
    requires
        s.len() > 0,
        forall|i: int|
            0 <= i < s.len() ==> is_alphanumeric_of(#[trigger] s[i]) || s[i] == '_' || s[i] == '-'
                || s[i] == '.' || s[i] == '?' || s[i] == '!' || s[i] == ':' || s[i] == ';' || s[i]
                == '\\' || s[i] == '/' || s[i] == '#' || s[i] == '{' || s[i] == '@' || s[i] == '}'
                || s[i] == '[' || s[i] == ']' || (is_space(s[i]) && 0 < i < s.len() - 1
                && is_alphanumeric_of(s[i - 1]) && is_alphanumeric_of(s[i + 1])),
    ensures
        is_valid_key(s),
{
}

// ----------------------------------------------------------------------- where calls stand

/// A call may stand at the start of a file, behind `I18n.`, and behind any
/// character but a letter, `_`, `'`, `-` and `.`.
pub proof fn where_a_call_may_stand(bytes: Seq<u8>, start: int, c: char)
    ensures
        may_call(bytes, start, true),
        may_call(bytes, 0, false),
        char_before(bytes, start) == Some(c) ==> (may_call(bytes, start, false) <==> !(
        is_alphabetic_of(c) || c == '_' || c == '\'' || c == '-' || c == '.')),
{
}

proof fn blanks_are_trimmed(blanks: Seq<char>, rest: Seq<char>)
    requires
        forall|i: int| 0 <= i < blanks.len() ==> is_space(#[trigger] blanks[i]),
        rest.len() > 0,
        !is_space(rest[0]),
    ensures
        trim_start_of(blanks + rest) == rest,
    decreases blanks.len(),
{
    let s = blanks + rest;
    if blanks.len() == 0 {
        assert(s =~= rest);
    } else {
        let less = blanks.skip(1);
        assert(s[0] == blanks[0]);
        assert(s.subrange(1, s.len() as int) =~= less + rest);
        assert forall|i: int| 0 <= i < less.len() implies is_space(#[trigger] less[i]) by {
            assert(less[i] == blanks[i + 1]);
        }
        blanks_are_trimmed(less, rest);
    }
}

/// The mark that opens a comment in a file with the extension, behind white
/// space.
pub open spec fn opens_comment(ext: Seq<char>, mark: Seq<char>) -> bool {
    ||| (ext == "coffee"@ || ext == "opal"@) && mark == seq!['#']
    ||| (ext == "es6"@ || ext == "js"@) && mark == seq!['/', '/']
    ||| ext == "haml"@ && mark == seq!['-', '#']
    ||| ext == "slim"@ && mark == seq!['-', '#']
    ||| ext == "slim"@ && mark == seq!['/']
}

/// A line that opens with the mark of a comment is passed over, unless the
/// comment is a magic one.
pub proof fn a_comment_is_passed_over(
    ext: Seq<char>,
    blanks: Seq<char>,
    mark: Seq<char>,
    rest: Seq<char>,
)
    requires
        opens_comment(ext, mark),
        forall|i: int| 0 <= i < blanks.len() ==> is_space(#[trigger] blanks[i]),
    ensures
        skips_line(ext, blanks + mark + rest) <==> !(rest.len() > 0 && is_space(rest[0])
            && "i18n-tasks-use"@.is_prefix_of(rest.skip(1))),
{
    reveal_strlit("coffee");
    reveal_strlit("opal");
    reveal_strlit("es6");
    reveal_strlit("js");
    reveal_strlit("haml");
    reveal_strlit("slim");
    assert("coffee"@.len() == 6 && "opal"@.len() == 4 && "es6"@.len() == 3 && "js"@.len() == 2
        && "haml"@.len() == 4 && "slim"@.len() == 4 && "opal"@[0] == 'o' && "haml"@[0] == 'h'
        && "slim"@[0] == 's');
    reveal_strlit("#");
    reveal_strlit("//");
    reveal_strlit("-");
    reveal_strlit("-#");
    reveal_strlit("/");
    let tail = mark + rest;
    assert(blanks + mark + rest =~= blanks + tail);
    blanks_are_trimmed(blanks, tail);
    let s = tail;
    let n = mark.len() as int;
    assert(s.skip(n) =~= rest);
    assert(s.subrange(0, n) =~= mark);
    assert(comment_rest(ext, blanks + mark + rest) == Some(rest)) by {
        if ext == "coffee"@ || ext == "opal"@ {
            assert(mark =~= "#"@);
        } else if ext == "es6"@ || ext == "js"@ {
            assert(mark =~= "//"@);
        } else if ext == "haml"@ {
            assert(s.subrange(0, 1) =~= "-"@);
            let inner = s.skip(1);
            assert(inner[0] == '#');
            blanks_are_trimmed(Seq::empty(), inner);
            assert(Seq::<char>::empty() + inner =~= inner);
            assert(inner.subrange(0, 1) =~= "#"@);
            assert(inner.skip(1) =~= rest);
        } else if mark == seq!['-', '#'] {
            assert(mark =~= "-#"@);
        } else {
            assert(mark =~= "/"@);
            if "-#"@.is_prefix_of(s) {
                assert(s.subrange(0, 2)[0] == s[0]);
            }
        }
    }
}

/// No line is passed over in a file of another language, and none that opens
/// with another character than those of a comment.
pub proof fn no_other_line_is_passed_over(ext: Seq<char>, blanks: Seq<char>, rest: Seq<char>)
    requires
        rest.len() > 0,
        !is_space(rest[0]),
        forall|i: int| 0 <= i < blanks.len() ==> is_space(#[trigger] blanks[i]),
        rest[0] != '#' && rest[0] != '/' && rest[0] != '-' || (ext != "coffee"@ && ext != "opal"@
            && ext != "es6"@ && ext != "js"@ && ext != "haml"@ && ext != "slim"@) || (rest.len() > 1
            && rest[0] == '/' && rest[1] != '/' && (ext == "js"@ || ext == "es6"@)),
    ensures
        !skips_line(ext, blanks + rest),
{
    reveal_strlit("slim");
    reveal_strlit("coffee");
    reveal_strlit("opal");
    reveal_strlit("es6");
    reveal_strlit("js");
    assert("coffee"@.len() == 6 && "opal"@.len() == 4 && "es6"@.len() == 3 && "js"@.len() == 2);
    reveal_strlit("#");
    reveal_strlit("//");
    reveal_strlit("-");
    reveal_strlit("-#");
    reveal_strlit("/");
    blanks_are_trimmed(blanks, rest);
    let s = rest;
    if "#"@.is_prefix_of(s) {
        assert(s.subrange(0, 1)[0] == s[0]);
    }
    if "//"@.is_prefix_of(s) {
        assert(s.subrange(0, 2)[0] == s[0] && s.subrange(0, 2)[1] == s[1]);
    }
    if "-"@.is_prefix_of(s) {
        assert(s.subrange(0, 1)[0] == s[0]);
    }
    if "-#"@.is_prefix_of(s) {
        assert(s.subrange(0, 2)[0] == s[0]);
    }
    if "/"@.is_prefix_of(s) {
        assert(s.subrange(0, 1)[0] == s[0]);
    }
}

// ------------------------------------------------------------------------- the scan

proof fn what_was_found_stays(t: TemplateV, at: int, out: FileScanV, i: int)
    requires
        0 <= i < out.keys.len(),
    ensures
        i < t.found_from(at, out).keys.len(),
        t.found_from(at, out).keys[i] == out.keys[i],
    decreases t.bytes.len() - at,
{
    if let Some(groups) = groups_at(CALL_SOURCE@, t.bytes, at) {
        if let Some(whole) = group(groups, 0) {
            let (after, next) = t.after_match(out, groups, whole);
            assert(i < after.keys.len() && after.keys[i] == out.keys[i]);
            if !(next <= at || next > t.bytes.len()) {
                what_was_found_stays(t, next, after, i);
            }
        }
    }
}

/// Wherever the scan comes upon a call with a key in quotes, the key is found,
/// and the place of the call with it. The call may not be the end of a longer
/// name, nor stand in a comment.
pub proof fn a_quoted_key_is_found(
    t: TemplateV,
    at: int,
    out: FileScanV,
    groups: Seq<Option<(int, int)>>,
    whole: (int, int),
    span: (int, int),
    key: Seq<char>,
    quote: char,
)
    requires
        groups_at(CALL_SOURCE@, t.bytes, at) == Some(groups),
        group(groups, 0) == Some(whole),
        group(groups, 2) == Some(span),
        group(groups, 3) is None,
        quote == '"' || quote == '\'',
        lossy_of(t.bytes.subrange(span.0, span.1)) == seq![quote] + key + seq![quote],
        key.len() > 0 && key[0] != '.' && key.last() != '.',
        is_valid_key(key),
        !has_text(key, "#{"@),
        may_call(t.bytes, whole.0, group(groups, 1) is Some),
        !skips_line(
            t.ext(),
            lossy_of(
                line_text_of(
                    t.bytes,
                    match group(groups, 1) {
                        Some(prefix) => prefix.1,
                        None => whole.0,
                    },
                ),
            ),
        ),
    ensures
        ({
            let found = t.found_from(at, out).keys;
            let i = out.keys.len() as int;
            &&& i < found.len()
            &&& found[i].0 == key
            &&& found[i].1.path == t.path
            &&& found[i].1.raw_key == key
            &&& found[i].1.candidate_keys == seq![key]
            &&& found[i].1.pos == match group(groups, 1) {
                Some(prefix) => prefix.1,
                None => whole.0,
            }
        }),
{
    reveal_strlit(".");
    a_quoted_key_is_taken_as_it_is(key, quote, t.path, t.cfg, seq!['_']);
    a_literal_stands_for_its_text(key, quote);
    if "."@.is_suffix_of(key) {
        assert(key.subrange(key.len() - 1, key.len() as int)[0] == key.last());
    }
    let (after, next) = t.after_match(out, groups, whole);
    let i = out.keys.len() as int;
    assert(after.keys.len() == i + 1 && after.keys[i].0 == key);
    if !(next <= at || next > t.bytes.len()) {
        what_was_found_stays(t, next, after, i);
    }
}

/// Behind a call the scan goes on, and behind what is no call one byte further
/// on, so that nothing is passed over.
pub proof fn the_scan_goes_on(
    t: TemplateV,
    at: int,
    out: FileScanV,
    groups: Seq<Option<(int, int)>>,
    whole: (int, int),
)
    requires
        groups_at(CALL_SOURCE@, t.bytes, at) == Some(groups),
        group(groups, 0) == Some(whole),
        group(groups, 1) is None,
        0 <= at <= whole.0 < whole.1 <= t.bytes.len(),
    ensures
        !may_call(t.bytes, whole.0, false) ==> t.found_from(at, out) == t.found_from(
            whole.0 + 1,
            out,
        ),
        may_call(t.bytes, whole.0, false) ==> exists|now: FileScanV|
            t.found_from(at, out) == #[trigger] t.found_from(whole.1, now),
{
    let (after, next) = t.after_match(out, groups, whole);
    assert(t.found_from(at, out) == t.found_from(next, after));
}

} // verus!
