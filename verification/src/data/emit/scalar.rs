//! How one scalar is written: the quoting rules, and the block-scalar forms.
use crate::config::{hex_digit, hex_digits, hex_of};
use crate::data::load::{bool_text, show_bool, Value, ValueV};
use crate::text::{
    alphanumeric, chars_of, concat, contains, control, ends_with, has_char, has_text,
    is_alphanumeric_of, is_control, join_of, parts_hold_no_break, parts_join_to_the_text,
    position_is_first, same_text, split, split_appended, split_of, text_between, texts,
};
use crate::yaml::{resolve_plain, resolved, Resolved};
use vstd::prelude::*;

verus! {

/// How a one-line scalar is written.
#[derive(Clone, Copy, Debug, PartialEq, Eq, Structural)]
pub enum Style {
    Plain,
    Single,
    Double,
}

/// The text holds a control character, a tab or a line break included.
pub open spec fn needs_escapes_of(s: Seq<char>) -> bool {
    exists|i: int| 0 <= i < s.len() && is_control(#[trigger] s[i])
}

/// The text opens with a character that no plain scalar may open with.
pub open spec fn opens_with_indicator(s: Seq<char>) -> bool {
    s.len() > 0 && (s[0] == ' ' || "-?:,[]{}#&*!|>'\"%@`"@.contains(s[0]))
}

/// The text opens with a character that is not a word character, and holds no
/// double quote.
pub open spec fn opens_without_word(s: Seq<char>) -> bool {
    s.len() > 0 && !is_alphanumeric_of(s[0]) && s[0] != '_' && !s.contains('"')
}

/// YAML 1.1 does not read the text back as a string, or a less strict reader
/// may not.
pub open spec fn not_a_string(s: Seq<char>) -> bool {
    ||| resolved(s) != Resolved::Str
    ||| s == "y"@
    ||| s == "Y"@
    ||| s == "n"@
    ||| s == "N"@
    ||| s == "<<"@
    ||| s == "="@
}

/// The text has no plain form that reads back as the same text:
///
/// * it is empty;
/// * it opens with a character that is not a word character and holds no `"`,
///   or with an indicator or a space;
/// * it ends in a space;
/// * it holds `": "` or ends in `:`, and would read back as a mapping;
/// * it holds `" #"`, which starts a comment;
/// * it reads back as something other than a string.
pub open spec fn needs_quotes(s: Seq<char>) -> bool {
    ||| s.len() == 0
    ||| opens_without_word(s)
    ||| opens_with_indicator(s)
    ||| " "@.is_suffix_of(s)
    ||| has_text(s, ": "@)
    ||| ":"@.is_suffix_of(s)
    ||| has_text(s, " #"@)
    ||| not_a_string(s)
}

/// The style of a one-line scalar: double quotes when escapes are needed and
/// when it opens without a word character, single quotes when other quotes are
/// needed.
pub open spec fn style(s: Seq<char>) -> Style {
    if needs_escapes_of(s) {
        Style::Double
    } else if !needs_quotes(s) {
        Style::Plain
    } else if opens_without_word(s) {
        Style::Double
    } else {
        Style::Single
    }
}

fn needs_escapes(s: &str) -> (b: bool)
    ensures
        b == needs_escapes_of(s@),
{
    for c in it: s.chars()
        invariant
            it.seq() == s@,
            forall|i: int| 0 <= i < it.index() ==> !is_control(#[trigger] s@[i]),
    {
        if control(c) {
            assert(is_control(s@[it.index() as int]));
            return true;
        }
    }
    false
}

fn resolves_to_non_string(s: &str) -> (b: bool)
    ensures
        b == not_a_string(s@),
{
    let string = match resolve_plain(s) {
        Resolved::Str => true,
        _ => false,
    };
    !string || same_text(s, "y") || same_text(s, "Y") || same_text(s, "n") || same_text(s, "N")
        || same_text(s, "<<") || same_text(s, "=")
}

/// Decides how a one-line scalar is written.
fn style_of(s: &str) -> (r: Style)
    ensures
        r == style(s@),
{
    if needs_escapes(s) {
        return Style::Double;
    }
    let v = chars_of(s);
    let non_word_start = v.len() > 0 && !alphanumeric(v[0]) && v[0] != '_' && !has_char(s, '"');
    let indicator_start = v.len() > 0 && (v[0] == ' ' || has_char("-?:,[]{}#&*!|>'\"%@`", v[0]));
    let required = v.len() == 0 || non_word_start || indicator_start || ends_with(s, " ")
        || contains(s, ": ") || ends_with(s, ":") || contains(s, " #") || resolves_to_non_string(s);
    if !required {
        Style::Plain
    } else if non_word_start {
        Style::Double
    } else {
        Style::Single
    }
}

/// The text in single quotes, with each quote doubled.
pub open spec fn single_quoted_of(s: Seq<char>) -> Seq<char> {
    "'"@ + doubled(s) + "'"@
}

/// The text with each single quote doubled.
pub open spec fn doubled(s: Seq<char>) -> Seq<char>
    decreases s.len(),
{
    if s.len() == 0 {
        Seq::empty()
    } else if s.last() == '\'' {
        doubled(s.drop_last()) + "''"@
    } else {
        doubled(s.drop_last()).push(s.last())
    }
}

fn single_quoted(s: &str) -> (out: String)
    ensures
        out@ == single_quoted_of(s@),
{
    let mut out = "'".to_owned();
    assert(s@.take(0) =~= Seq::<char>::empty());
    assert("'"@ + doubled(s@.take(0)) =~= "'"@);
    for c in it: s.chars()
        invariant
            it.seq() == s@,
            out@ == "'"@ + doubled(s@.take(it.index() as int)),
    {
        let ghost before = out@;
        if c == '\'' {
            out.append("''");
        } else {
            out.push(c);
        }
        proof {
            let part = s@.take(it.index() + 1);
            assert(part.drop_last() =~= s@.take(it.index() as int));
            assert(out@ =~= "'"@ + doubled(part));
        }
    }
    assert(s@.take(s@.len() as int) =~= s@);
    out.append("'");
    out
}

/// One character inside double quotes.
pub open spec fn escape(c: char) -> Seq<char> {
    if c == '"' {
        "\\\""@
    } else if c == '\\' {
        "\\\\"@
    } else if c == '\n' {
        "\\n"@
    } else if c == '\r' {
        "\\r"@
    } else if c == '\t' {
        "\\t"@
    } else if is_control(c) {
        "\\x"@ + hex_of(c as int, 2)
    } else {
        seq![c]
    }
}

/// The text with the characters that double quotes need escaped.
pub open spec fn escaped(s: Seq<char>) -> Seq<char>
    decreases s.len(),
{
    if s.len() == 0 {
        Seq::empty()
    } else {
        escaped(s.drop_last()) + escape(s.last())
    }
}

/// The text in double quotes.
pub open spec fn double_quoted_of(s: Seq<char>) -> Seq<char> {
    "\""@ + escaped(s) + "\""@
}

fn push_escaped(out: &mut String, c: char)
    ensures
        final(out)@ == old(out)@ + escape(c),
{
    if c == '"' {
        out.append("\\\"");
    } else if c == '\\' {
        out.append("\\\\");
    } else if c == '\n' {
        out.append("\\n");
    } else if c == '\r' {
        out.append("\\r");
    } else if c == '\t' {
        out.append("\\t");
    } else if control(c) {
        out.append("\\x");
        out.append(&hex_digits(c as u64, 2));
        assert(out@ =~= old(out)@ + escape(c));
    } else {
        out.push(c);
        assert(out@ =~= old(out)@ + escape(c));
    }
}

fn double_quoted(s: &str) -> (out: String)
    ensures
        out@ == double_quoted_of(s@),
{
    let mut out = "\"".to_owned();
    assert(s@.take(0) =~= Seq::<char>::empty());
    assert("\""@ + escaped(s@.take(0)) =~= "\""@);
    for c in it: s.chars()
        invariant
            it.seq() == s@,
            out@ == "\""@ + escaped(s@.take(it.index() as int)),
    {
        push_escaped(&mut out, c);
        proof {
            let part = s@.take(it.index() + 1);
            assert(part.drop_last() =~= s@.take(it.index() as int));
            assert(out@ =~= "\""@ + escaped(part));
        }
    }
    assert(s@.take(s@.len() as int) =~= s@);
    out.append("\"");
    out
}

/// A one-line scalar as it is written.
pub open spec fn one_line(s: Seq<char>) -> Seq<char> {
    match style(s) {
        Style::Plain => s,
        Style::Single => single_quoted_of(s),
        Style::Double => double_quoted_of(s),
    }
}

/// A mapping key. A key is always one line, so it never becomes a block scalar.
pub fn format_key(key: &str) -> (out: String)
    ensures
        out@ == one_line(key@),
{
    match style_of(key) {
        Style::Plain => key.to_owned(),
        Style::Single => single_quoted(key),
        Style::Double => double_quoted(key),
    }
}

// --------------------------------------------------------------- block scalars

/// The text without the line breaks at its end.
pub open spec fn without_breaks(s: Seq<char>) -> Seq<char>
    decreases s.len(),
{
    if s.len() > 0 && s.last() == '\n' {
        without_breaks(s.drop_last())
    } else {
        s
    }
}

/// A line that can stand in a block: its end shows, and it holds no control
/// character.
pub open spec fn block_line(line: Seq<char>) -> bool {
    !" "@.is_suffix_of(line) && !needs_escapes_of(line)
}

/// The text can be written as a block scalar without changing it. The first
/// line carries the indentation, so it must not be empty nor open with a
/// space.
pub open spec fn is_block_safe(s: Seq<char>) -> bool {
    let lines = split_of(without_breaks(s), '\n');
    &&& s.contains('\n')
    &&& lines[0].len() > 0
    &&& lines[0][0] != ' '
    &&& forall|i: int| 0 <= i < lines.len() ==> block_line(#[trigger] lines[i])
}

/// How many characters are left once the breaks at the end are dropped.
fn end_without_breaks(v: &Vec<char>) -> (n: usize)
    ensures
        n <= v.len(),
        v@.take(n as int) == without_breaks(v@),
{
    let mut n: usize = v.len();
    assert(v@.take(n as int) =~= v@);
    while n > 0 && v[n - 1] == '\n'
        invariant
            n <= v.len(),
            without_breaks(v@.take(n as int)) == without_breaks(v@),
        decreases n,
    {
        assert(v@.take(n as int).drop_last() =~= v@.take(n - 1));
        n = n - 1;
    }
    n
}

fn block_safe(s: &str) -> (b: bool)
    ensures
        b == is_block_safe(s@),
{
    if !has_char(s, '\n') {
        return false;
    }
    let v = chars_of(s);
    let n = end_without_breaks(&v);
    let body = text_between(&v, 0, n);
    assert(body@ =~= without_breaks(s@));
    let lines = split(&body, '\n');
    let ghost model = split_of(body@, '\n');
    assert(model[0] == lines@[0]@);
    let first = chars_of(&lines[0]);
    if first.len() == 0 || first[0] == ' ' {
        return false;
    }
    let mut i: usize = 0;
    while i < lines.len()
        invariant
            i <= lines.len(),
            model == texts(lines@),
            model == split_of(without_breaks(s@), '\n'),
            forall|j: int| 0 <= j < i ==> block_line(#[trigger] model[j]),
        decreases lines.len() - i,
    {
        assert(model[i as int] == lines@[i as int]@);
        if ends_with(&lines[i], " ") || needs_escapes(&lines[i]) {
            return false;
        }
        i = i + 1;
    }
    true
}

/// The first `n` lines of a block, each on a line of its own. An empty line is
/// written empty, never as indentation alone.
pub open spec fn block_lines(lines: Seq<Seq<char>>, n: int, pad: Seq<char>) -> Seq<char>
    decreases n,
{
    if n <= 0 {
        Seq::empty()
    } else if lines[n - 1].len() == 0 {
        block_lines(lines, n - 1, pad) + "\n"@
    } else {
        block_lines(lines, n - 1, pad) + "\n"@ + pad + lines[n - 1]
    }
}

/// The text as a block scalar: `|-`, `|` or `|+` by the number of line breaks
/// at its end, and then its lines.
pub open spec fn block_scalar_of(s: Seq<char>, pad: Seq<char>) -> Seq<char> {
    let trailing = s.len() - without_breaks(s).len();
    let lines = split_of(s, '\n');
    let header = if trailing == 0 {
        "|-"@
    } else if trailing == 1 {
        "|"@
    } else {
        "|+"@
    };
    let kept = if trailing > 0 {
        lines.len() - 1
    } else {
        lines.len() as int
    };
    header + block_lines(lines, kept, pad)
}

fn block_scalar(s: &str, pad: &str) -> (out: String)
    ensures
        out@ == block_scalar_of(s@, pad@),
{
    let v = chars_of(s);
    let n = end_without_breaks(&v);
    let trailing: usize = v.len() - n;
    assert(without_breaks(s@).len() == n);
    let lines = split(s, '\n');
    let ghost model = split_of(s@, '\n');
    let kept: usize = if trailing > 0 {
        lines.len() - 1
    } else {
        lines.len()
    };
    let header = if trailing == 0 {
        "|-"
    } else if trailing == 1 {
        "|"
    } else {
        "|+"
    };
    let mut out = header.to_owned();
    let mut i: usize = 0;
    assert(model.len() == lines.len());
    assert(header@ + block_lines(model, 0, pad@) =~= header@);
    while i < kept
        invariant
            i <= kept <= lines.len(),
            model == texts(lines@),
            out@ == header@ + block_lines(model, i as int, pad@),
        decreases kept - i,
    {
        assert(model[i as int] == lines@[i as int]@);
        out.append("\n");
        if !lines[i].as_str().is_empty() {
            out.append(pad);
            out.append(&lines[i]);
        }
        assert(out@ =~= header@ + block_lines(model, i + 1, pad@));
        i = i + 1;
    }
    out
}

/// Two spaces more.
pub open spec fn deeper(pad: Seq<char>) -> Seq<char> {
    pad + "  "@
}

/// A leaf value that is no collection, as it is written after a key or a dash
/// that stands behind `pad`. Block content goes one level deeper.
pub open spec fn scalar_text(value: ValueV, pad: Seq<char>) -> Seq<char> {
    match value {
        ValueV::Str(s) => if is_block_safe(s) {
            block_scalar_of(s, deeper(pad))
        } else {
            one_line(s)
        },
        ValueV::Plain(s) => s,
        ValueV::Bool(b) => bool_text(b),
        _ => Seq::empty(),
    }
}

pub(crate) fn scalar_at(value: &Value, pad: &str) -> (out: String)
    requires
        !(value is List),
        !(value is Table),
    ensures
        out@ == scalar_text(value@, pad@),
{
    match value {
        Value::Str(s) => if block_safe(s) {
            block_scalar(s, &concat(pad, "  "))
        } else {
            format_key(s)
        },
        Value::Plain(s) => s.clone(),
        Value::Bool(b) => show_bool(*b),
        _ => {
            let out = String::new();
            assert(out@ =~= Seq::empty());
            out
        },
    }
}

/// The indentation of a level: two spaces each.
pub open spec fn indentation(level: nat) -> Seq<char>
    decreases level,
{
    if level == 0 {
        Seq::empty()
    } else {
        deeper(indentation((level - 1) as nat))
    }
}

fn pad_of(level: usize) -> (out: String)
    ensures
        out@ == indentation(level as nat),
{
    let mut out = String::new();
    let mut i: usize = 0;
    assert(out@ =~= indentation(0));
    while i < level
        invariant
            i <= level,
            out@ == indentation(i as nat),
        decreases level - i,
    {
        out.append("  ");
        i = i + 1;
    }
    out
}

/// A leaf value, including the block-scalar forms. `indent` is the indent of
/// the line that carries the key or the dash; block content goes one deeper.
/// A collection has no such form.
pub fn format_scalar(value: &Value, indent: usize) -> (out: String)
    requires
        !(value is List),
        !(value is Table),
    ensures
        out@ == scalar_text(value@, indentation(indent as nat)),
{
    scalar_at(value, &pad_of(indent))
}

// ------------------------------------------------------------------------ laws

/// What a single-quoted scalar reads as: two quotes stand for one.
pub open spec fn undoubled(t: Seq<char>) -> Seq<char>
    decreases t.len(),
{
    if t.len() == 0 {
        Seq::empty()
    } else if t.last() == '\'' && t.len() >= 2 {
        undoubled(t.take(t.len() - 2)).push('\'')
    } else {
        undoubled(t.drop_last()).push(t.last())
    }
}

proof fn undoubled_doubled(s: Seq<char>)
    ensures
        undoubled(doubled(s)) == s,
    decreases s.len(),
{
    reveal_strlit("''");
    if s.len() > 0 {
        let head = s.drop_last();
        undoubled_doubled(head);
        let t = doubled(s);
        if s.last() == '\'' {
            assert(t.take(t.len() - 2) =~= doubled(head));
        } else {
            assert(t.drop_last() =~= doubled(head));
        }
        assert(head.push(s.last()) =~= s);
    }
}

/// The value of a hexadecimal digit.
pub open spec fn hex_value(c: char) -> int {
    if c <= '9' {
        c as int - 48
    } else {
        c as int - 87
    }
}

/// What the text inside double quotes reads as.
pub open spec fn unescaped(t: Seq<char>) -> Seq<char>
    decreases t.len(),
{
    if t.len() == 0 {
        Seq::empty()
    } else if t[0] == '\\' && t.len() >= 2 {
        if t[1] == 'n' {
            seq!['\n'] + unescaped(t.skip(2))
        } else if t[1] == 'r' {
            seq!['\r'] + unescaped(t.skip(2))
        } else if t[1] == 't' {
            seq!['\t'] + unescaped(t.skip(2))
        } else if t[1] == 'x' && t.len() >= 4 {
            seq![((hex_value(t[2]) * 16 + hex_value(t[3])) as u32) as char] + unescaped(t.skip(4))
        } else {
            seq![t[1]] + unescaped(t.skip(2))
        }
    } else {
        seq![t[0]] + unescaped(t.skip(1))
    }
}

proof fn escape_reads_back(c: char, rest: Seq<char>)
    ensures
        unescaped(escape(c) + rest) == seq![c] + unescaped(rest),
{
    reveal_strlit("\\\"");
    reveal_strlit("\\\\");
    reveal_strlit("\\n");
    reveal_strlit("\\r");
    reveal_strlit("\\t");
    reveal_strlit("\\x");
    let t = escape(c) + rest;
    if c == '"' || c == '\\' || c == '\n' || c == '\r' || c == '\t' {
        assert(t.skip(2) =~= rest);
    } else if is_control(c) {
        let n = c as int;
        reveal_with_fuel(hex_of, 3);
        assert(hex_of(n, 2) =~= seq![hex_digit((n / 16) % 16), hex_digit(n % 16)]);
        assert(t[2] == hex_digit((n / 16) % 16));
        assert(t[3] == hex_digit(n % 16));
        assert(0 <= n <= 0x9f);
        assert(hex_value(hex_digit(n % 16)) == n % 16);
        assert(hex_value(hex_digit((n / 16) % 16)) == n / 16);
        assert(t.skip(4) =~= rest);
    } else {
        assert(t.skip(1) =~= rest);
    }
}

proof fn unescaped_escaped(s: Seq<char>, rest: Seq<char>)
    ensures
        unescaped(escaped(s) + rest) == s + unescaped(rest),
    decreases s.len(),
{
    if s.len() == 0 {
        assert(escaped(s) + rest =~= rest);
        assert(s + unescaped(rest) =~= unescaped(rest));
    } else {
        let head = s.drop_last();
        let c = s.last();
        assert(escaped(s) + rest =~= escaped(head) + (escape(c) + rest));
        unescaped_escaped(head, escape(c) + rest);
        escape_reads_back(c, rest);
        assert(head + (seq![c] + unescaped(rest)) =~= s + unescaped(rest));
    }
}

/// What a one-line scalar reads as: the text between its quotes, or itself.
pub open spec fn read_back(t: Seq<char>) -> Seq<char> {
    if t.len() >= 2 && t[0] == '"' {
        unescaped(t.subrange(1, t.len() - 1))
    } else if t.len() >= 2 && t[0] == '\'' {
        undoubled(t.subrange(1, t.len() - 1))
    } else {
        t
    }
}

/// A key, or a string on one line, reads back as the text that was written,
/// whichever style it was written in.
pub proof fn a_one_line_scalar_reads_back(s: Seq<char>)
    ensures
        read_back(one_line(s)) == s,
{
    reveal_strlit("'");
    reveal_strlit("\"");
    let t = one_line(s);
    match style(s) {
        Style::Plain => {
            reveal_strlit("-?:,[]{}#&*!|>'\"%@`");
            let signs = "-?:,[]{}#&*!|>'\"%@`"@;
            assert(signs[14] == '\'');
            assert(signs[15] == '"');
            assert(!opens_with_indicator(s));
            assert(s[0] != '\'' && s[0] != '"');
        },
        Style::Single => {
            undoubled_doubled(s);
            assert(t.subrange(1, t.len() - 1) =~= doubled(s));
        },
        Style::Double => {
            unescaped_escaped(s, Seq::empty());
            assert(escaped(s) + Seq::<char>::empty() =~= escaped(s));
            assert(s + unescaped(Seq::empty()) =~= s);
            assert(t.subrange(1, t.len() - 1) =~= escaped(s));
        },
    }
}

/// The lines of a block without their indentation.
pub open spec fn unindented(lines: Seq<Seq<char>>, pad: Seq<char>) -> Seq<Seq<char>> {
    Seq::new(
        lines.len(),
        |i: int|
            if pad.is_prefix_of(lines[i]) {
                lines[i].skip(pad.len() as int)
            } else {
                lines[i]
            },
    )
}

/// What the lines of a block scalar read as, where its content stands behind
/// `pad`: its text, without the line breaks at the end (`|-`), with one of them
/// (`|`), or with all of them (`|+`).
pub open spec fn block_read_back(lines: Seq<Seq<char>>, pad: Seq<char>) -> Seq<char> {
    let body = join_of(unindented(lines.skip(1), pad), "\n"@);
    if lines[0] == "|-"@ {
        without_breaks(body)
    } else if lines[0] == "|"@ {
        without_breaks(body) + "\n"@
    } else {
        body + "\n"@
    }
}

/// The lines of a written block are its header and its content behind `pad`.
pub(crate) proof fn block_is_split(header: Seq<char>, lines: Seq<Seq<char>>, n: int, pad: Seq<char>)
    requires
        0 <= n <= lines.len(),
        !header.contains('\n'),
        !pad.contains('\n'),
        forall|i: int| 0 <= i < lines.len() ==> !(#[trigger] lines[i]).contains('\n'),
    ensures
        split_of(header + block_lines(lines, n, pad), '\n').len() == n + 1,
        split_of(header + block_lines(lines, n, pad), '\n')[0] == header,
        forall|i: int|
            0 <= i < n ==> #[trigger] split_of(header + block_lines(lines, n, pad), '\n')[i + 1]
                == if lines[i].len() == 0 {
                lines[i]
            } else {
                pad + lines[i]
            },
    decreases n,
{
    let text = header + block_lines(lines, n, pad);
    if n <= 0 {
        assert(text =~= header);
        position_is_first(header, '\n');
        assert(split_of(header, '\n') =~= seq![header]);
    } else {
        block_is_split(header, lines, n - 1, pad);
        let before = header + block_lines(lines, n - 1, pad);
        let x = if lines[n - 1].len() == 0 {
            lines[n - 1]
        } else {
            pad + lines[n - 1]
        };
        assert(!x.contains('\n')) by {
            if x.contains('\n') {
                let k = x.index_of('\n');
                if lines[n - 1].len() == 0 || k >= pad.len() {
                    let at = if lines[n - 1].len() == 0 {
                        k
                    } else {
                        k - pad.len()
                    };
                    assert(lines[n - 1][at] == '\n');
                } else {
                    assert(pad[k] == '\n');
                }
            }
        }
        assert(text =~= before + "\n"@ + x);
        split_appended(before, x);
        assert forall|i: int| 0 <= i < n implies #[trigger] split_of(text, '\n')[i + 1]
            == if lines[i].len() == 0 {
            lines[i]
        } else {
            pad + lines[i]
        } by {
            if i < n - 1 {
                assert(split_of(text, '\n')[i + 1] == split_of(before, '\n')[i + 1]);
            }
        }
    }
}

/// What is left once the breaks at the end are dropped is the start of the
/// text, and does not end in a break.
proof fn breaks_are_dropped(s: Seq<char>)
    ensures
        without_breaks(s).len() <= s.len(),
        without_breaks(s) == s.take(without_breaks(s).len() as int),
        without_breaks(without_breaks(s)) == without_breaks(s),
    decreases s.len(),
{
    if s.len() > 0 && s.last() == '\n' {
        breaks_are_dropped(s.drop_last());
        let n = without_breaks(s).len() as int;
        assert(s.drop_last().take(n) =~= s.take(n));
    } else {
        assert(s.take(s.len() as int) =~= s);
    }
}

/// A string of several lines that is written as a block reads back as the text
/// that was written.
pub proof fn a_block_scalar_reads_back(s: Seq<char>, pad: Seq<char>)
    requires
        is_block_safe(s),
        pad.len() > 0,
        forall|i: int| 0 <= i < pad.len() ==> #[trigger] pad[i] == ' ',
    ensures
        block_read_back(split_of(block_scalar_of(s, pad), '\n'), pad) == s,
{
    reveal_strlit("|-");
    reveal_strlit("|");
    reveal_strlit("|+");
    reveal_strlit("\n");
    let trailing = s.len() - without_breaks(s).len();
    let lines = split_of(s, '\n');
    let header = if trailing == 0 {
        "|-"@
    } else if trailing == 1 {
        "|"@
    } else {
        "|+"@
    };
    let kept = if trailing > 0 {
        lines.len() - 1
    } else {
        lines.len() as int
    };
    let written = split_of(block_scalar_of(s, pad), '\n');
    parts_hold_no_break(s);
    parts_join_to_the_text(s);
    breaks_are_dropped(s);
    block_is_split(header, lines, kept, pad);
    assert("|-"@ != "|"@ && "|-"@ != "|+"@ && "|"@ != "|+"@) by {
        assert("|-"@.len() == 2 && "|"@.len() == 1 && "|+"@.len() == 2);
        assert("|-"@[1] != "|+"@[1]);
    }
    let content = unindented(written.skip(1), pad);
    assert(content =~= lines.take(kept)) by {
        assert forall|i: int| 0 <= i < kept implies #[trigger] content[i] == lines[i] by {
            assert(written.skip(1)[i] == written[i + 1]);
            if lines[i].len() > 0 {
                let line = pad + lines[i];
                assert(line.subrange(0, pad.len() as int) =~= pad);
                assert(pad.is_prefix_of(line));
                assert(line.skip(pad.len() as int) =~= lines[i]);
            }
        }
    }
    let body = join_of(content, "\n"@);
    if trailing == 0 {
        assert(lines.take(kept) =~= lines);
        assert(without_breaks(s) =~= s);
    } else {
        assert(s.last() == '\n') by {
            if s.last() != '\n' {
                assert(without_breaks(s) == s);
            }
        }
        last_part_is_empty(s);
        assert(lines.take(kept) =~= lines.drop_last());
        assert(join_of(lines, "\n"@) =~= body + "\n"@) by {
            assert(lines.last().len() == 0);
            assert(lines.len() >= 2);
        }
        assert(body =~= s.drop_last());
        if trailing == 1 {
            assert(body =~= without_breaks(s));
        }
    }
}

/// A text that ends in a line break has an empty part behind it.
proof fn last_part_is_empty(s: Seq<char>)
    requires
        s.len() > 0,
        s.last() == '\n',
    ensures
        split_of(s, '\n').len() >= 2,
        split_of(s, '\n').last().len() == 0,
{
    reveal_strlit("\n");
    let head = s.drop_last();
    let none = Seq::<char>::empty();
    split_appended(head, none);
    parts_hold_no_break(head);
    assert(head + "\n"@ + none =~= s);
}

/// Two different keys are never written alike.
pub proof fn different_keys_are_written_differently(a: Seq<char>, b: Seq<char>)
    requires
        a != b,
    ensures
        one_line(a) != one_line(b),
{
    a_one_line_scalar_reads_back(a);
    a_one_line_scalar_reads_back(b);
}

/// A string written without quotes is a string when it is read again.
pub proof fn a_plain_string_stays_a_string(s: Seq<char>)
    requires
        one_line(s) == s,
    ensures
        resolved(s) == Resolved::Str,
{
    reveal_strlit("'");
    reveal_strlit("\"");
    a_quoted_text_is_longer(s);
}

proof fn a_quoted_text_is_longer(s: Seq<char>)
    ensures
        single_quoted_of(s).len() > s.len(),
        double_quoted_of(s).len() > s.len(),
    decreases s.len(),
{
    reveal_strlit("'");
    reveal_strlit("''");
    reveal_strlit("\"");
    reveal_strlit("\\\"");
    reveal_strlit("\\\\");
    reveal_strlit("\\n");
    reveal_strlit("\\r");
    reveal_strlit("\\t");
    reveal_strlit("\\x");
    if s.len() > 0 {
        a_quoted_text_is_longer(s.drop_last());
    }
}

} // verus!
