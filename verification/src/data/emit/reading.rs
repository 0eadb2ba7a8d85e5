//! What an emitted file reads as.
//!
//! The reader here covers the block forms that the emitter writes: mappings
//! and sequences by their indentation, one-line scalars and block scalars. It
//! exists in contracts only, and the laws at the end say that a file reads as
//! what it was written from.
use crate::config::{hex_digit, hex_of};
use crate::data::emit::scalar::{
    a_block_scalar_reads_back, a_one_line_scalar_reads_back, block_is_split, block_lines,
    block_read_back, block_scalar_of, deeper, doubled, escape, escaped, is_block_safe,
    needs_escapes_of, one_line, opens_with_indicator, read_back, scalar_text, style, without_breaks,
    Style,
};
use crate::data::emit::{
    branch_at, dashed, emitted, entry_sorts, has_branch, holds_sorted, inserted, names_of, placed,
    sorts, written_entry, written_item, written_items, written_level, written_table, written_value,
    EntryV, Level,
};
use crate::data::load::{
    bool_text, entries_upto, items_upto, scalar_value, symbol_reference, value_of, ValueV,
};
use crate::text::{
    find_is_first, has_text, is_control, occurs_at, parts_hold_no_break, position_is_first,
    position_of, sorted_has_no_duplicates, split_appended, split_of,
};
use crate::yaml::NodeV;
use vstd::prelude::*;

verus! {

/// Indentation.
pub open spec fn spaces(d: nat) -> Seq<char> {
    Seq::new(d, |i: int| ' ')
}

/// The line opens with a dash behind `d` spaces: an item of a sequence.
pub open spec fn dash_at(line: Seq<char>, d: nat) -> bool {
    &&& spaces(d).is_prefix_of(line)
    &&& line.len() > d
    &&& line[d as int] == '-'
    &&& line.len() == d + 1 || line[d as int + 1] == ' '
}

/// The line opens with a name behind `d` spaces: an entry of a mapping.
pub open spec fn entry_at(line: Seq<char>, d: nat) -> bool {
    &&& spaces(d).is_prefix_of(line)
    &&& line.len() > d
    &&& line[d as int] != ' '
    &&& !dash_at(line, d)
}

/// The line stands deeper than `d` spaces, or is empty.
pub open spec fn beyond(line: Seq<char>, d: nat) -> bool {
    line.len() == 0 || spaces(d + 1).is_prefix_of(line)
}

/// An item or an entry starts on the line.
pub open spec fn starts(line: Seq<char>, d: nat, dash: bool) -> bool {
    if dash {
        dash_at(line, d)
    } else {
        entry_at(line, d)
    }
}

/// Where the next item or entry starts, from line `i` on.
pub open spec fn next_start(lines: Seq<Seq<char>>, i: int, d: nat, dash: bool) -> int
    decreases lines.len() - i,
{
    if i >= lines.len() {
        lines.len() as int
    } else if starts(lines[i], d, dash) {
        i
    } else {
        next_start(lines, i + 1, d, dash)
    }
}

/// Where the single quote that closes a scalar stands, from `i` on.
pub open spec fn single_close(t: Seq<char>, i: int) -> int
    decreases t.len() - i,
{
    if i >= t.len() {
        t.len() as int
    } else if t[i] != '\'' {
        single_close(t, i + 1)
    } else if i + 1 < t.len() && t[i + 1] == '\'' {
        single_close(t, i + 2)
    } else {
        i
    }
}

/// Where the double quote that closes a scalar stands, from `i` on.
pub open spec fn double_close(t: Seq<char>, i: int) -> int
    decreases t.len() - i,
{
    if i >= t.len() {
        t.len() as int
    } else if t[i] == '\\' && i + 2 <= t.len() {
        double_close(t, i + 2)
    } else if t[i] == '"' {
        i
    } else {
        double_close(t, i + 1)
    }
}

/// A colon that ends a name: the line ends behind it, or a space follows.
pub open spec fn ends_name(t: Seq<char>, i: int) -> bool {
    0 <= i < t.len() && t[i] == ':' && (i + 1 == t.len() || t[i + 1] == ' ')
}

/// The first colon that ends a plain name, from `i` on.
pub open spec fn plain_end(t: Seq<char>, i: int) -> int
    decreases t.len() - i,
{
    if i >= t.len() {
        t.len() as int
    } else if ends_name(t, i) {
        i
    } else {
        plain_end(t, i + 1)
    }
}

/// Where the colon behind a name stands.
pub open spec fn name_end(t: Seq<char>) -> int {
    if t.len() > 0 && t[0] == '"' {
        double_close(t, 1) + 1
    } else if t.len() > 0 && t[0] == '\'' {
        single_close(t, 1) + 1
    } else {
        plain_end(t, 0)
    }
}

/// The text opens with a name and its colon.
pub open spec fn has_name(t: Seq<char>) -> bool {
    ends_name(t, name_end(t))
}

/// What a plain scalar reads as. A Symbol is kept as it is written.
pub open spec fn plain_read(t: Seq<char>) -> ValueV {
    match scalar_value(t, true, 0, Seq::empty(), true) {
        Ok(value) => value,
        Err(_) => ValueV::Nil,
    }
}

/// What stands behind a name or a dash and starts on its line reads as.
pub open spec fn inline_read(t: Seq<char>, body: Seq<Seq<char>>, d: nat) -> ValueV {
    if t == "[]"@ {
        ValueV::List(Seq::empty())
    } else if t == "{}"@ {
        ValueV::Table(Seq::empty())
    } else if t.len() > 0 && t[0] == '|' {
        ValueV::Str(block_read_back(seq![t] + body, spaces(d + 2)))
    } else if t.len() > 0 && (t[0] == '"' || t[0] == '\'') {
        ValueV::Str(read_back(t))
    } else {
        plain_read(t)
    }
}

/// How far the first line reaches behind the indentation.
pub open spec fn reach(lines: Seq<Seq<char>>, d: nat) -> nat {
    if lines.len() > 0 && lines[0].len() >= d {
        (lines[0].len() - d) as nat
    } else {
        0
    }
}

/// What stands behind the colon of a name reads as: `rest` on its line, and
/// the lines below it.
pub open spec fn value_read(rest: Seq<char>, body: Seq<Seq<char>>, d: nat) -> ValueV
    decreases body.len(), reach(body, d), 3nat,
{
    if rest.len() > 0 {
        inline_read(rest.skip(1), body, d)
    } else if body.len() == 0 {
        ValueV::Nil
    } else if dash_at(body[0], d) {
        ValueV::List(items_read(body, d))
    } else {
        ValueV::Table(table_read(body, d + 2))
    }
}

/// The entries of a mapping whose names stand behind `d` spaces.
pub open spec fn table_read(lines: Seq<Seq<char>>, d: nat) -> Seq<(Seq<char>, ValueV)>
    decreases lines.len(), reach(lines, d), 2nat,
{
    if lines.len() == 0 {
        Seq::empty()
    } else {
        let n = next_start(lines, 1, d, false);
        let t = lines[0].skip(d as int);
        let k = name_end(t);
        if 1 <= n <= lines.len() {
            seq![
                (read_back(t.take(k)), value_read(t.skip(k + 1), lines.subrange(1, n), d)),
            ] + table_read(lines.skip(n), d)
        } else {
            Seq::empty()
        }
    }
}

/// The items of a sequence whose dashes stand behind `d` spaces.
pub open spec fn items_read(lines: Seq<Seq<char>>, d: nat) -> Seq<ValueV>
    decreases lines.len(), reach(lines, d), 2nat,
{
    if lines.len() == 0 {
        Seq::empty()
    } else {
        let n = next_start(lines, 1, d, true);
        if 1 <= n <= lines.len() {
            seq![item_read(lines.take(n), d)] + items_read(lines.skip(n), d)
        } else {
            Seq::empty()
        }
    }
}

/// One item of a sequence: what stands behind the dash is read as if the dash
/// were indentation.
pub open spec fn item_read(lines: Seq<Seq<char>>, d: nat) -> ValueV
    decreases lines.len(), reach(lines, d), 1nat,
{
    if lines.len() == 0 || lines[0].len() < d + 2 {
        ValueV::Nil
    } else {
        let t = lines[0].skip(d as int + 2);
        let inner = lines.update(0, spaces(d + 2) + t);
        if dash_at(t, 0) {
            ValueV::List(items_read(inner, d + 2))
        } else if has_name(t) {
            ValueV::Table(table_read(inner, d + 2))
        } else {
            inline_read(t, lines.skip(1), d)
        }
    }
}

/// The lines of a text that ends in a line break.
pub open spec fn rows(t: Seq<char>) -> Seq<Seq<char>> {
    split_of(t, '\n').drop_last()
}

/// The entries of a document: the mapping below its first line.
pub open spec fn document_read(t: Seq<char>) -> Seq<(Seq<char>, ValueV)> {
    table_read(rows(t).skip(1), 0)
}

/// A text that can be a plain scalar behind a name or a dash: it stands on one
/// line, and nothing in it reads as a name, a comment or another form.
pub open spec fn plain_form(s: Seq<char>) -> bool {
    &&& s.len() > 0
    &&& !s.contains('\n')
    &&& !has_text(s, ": "@)
    &&& s.last() != ':'
    &&& s[0] != '|' && s[0] != '"' && s[0] != '\'' && s[0] != '[' && s[0] != '{'
    &&& !dash_at(s, 0)
}

/// A value as the loader gives it: a plain scalar is one that reads as itself.
pub open spec fn as_loaded(value: ValueV) -> bool
    decreases value,
{
    match value {
        ValueV::Plain(s) => plain_form(s) && plain_read(s) == value,
        ValueV::List(items) => forall|i: int|
            0 <= i < items.len() ==> as_loaded(#[trigger] items[i]),
        ValueV::Table(entries) => forall|i: int|
            0 <= i < entries.len() ==> as_loaded((#[trigger] entries[i]).1),
        _ => true,
    }
}


// ------------------------------------------------------------------- the names

proof fn double_close_passes(p: Seq<char>, c: char, rest: Seq<char>)
    ensures
        double_close(p + escape(c) + rest, p.len() as int) == double_close(
            p + escape(c) + rest,
            (p + escape(c)).len() as int,
        ),
{
    reveal_strlit("\\\"");
    reveal_strlit("\\\\");
    reveal_strlit("\\n");
    reveal_strlit("\\r");
    reveal_strlit("\\t");
    reveal_strlit("\\x");
    let t = p + escape(c) + rest;
    let i = p.len() as int;
    if c == '"' || c == '\\' || c == '\n' || c == '\r' || c == '\t' {
        assert(t[i] == '\\');
    } else if is_control(c) {
        let n = c as int;
        reveal_with_fuel(hex_of, 3);
        assert(hex_of(n, 2) =~= seq![hex_digit((n / 16) % 16), hex_digit(n % 16)]);
        assert(t[i] == '\\');
        assert(t[i + 2] == hex_digit((n / 16) % 16));
        assert(t[i + 3] == hex_digit(n % 16));
        assert(double_close(t, i + 2) == double_close(t, i + 3));
        assert(double_close(t, i + 3) == double_close(t, i + 4));
    } else {
        assert(t[i] == c);
    }
}

proof fn double_close_reaches(p: Seq<char>, s: Seq<char>, rest: Seq<char>)
    ensures
        double_close(p + escaped(s) + rest, p.len() as int) == double_close(
            p + escaped(s) + rest,
            (p + escaped(s)).len() as int,
        ),
    decreases s.len(),
{
    if s.len() > 0 {
        let head = s.drop_last();
        let c = s.last();
        double_close_reaches(p, head, escape(c) + rest);
        double_close_passes(p + escaped(head), c, rest);
        assert(p + escaped(s) + rest =~= p + escaped(head) + (escape(c) + rest));
        assert(p + escaped(s) + rest =~= (p + escaped(head)) + escape(c) + rest);
    }
}

proof fn single_close_reaches(p: Seq<char>, s: Seq<char>, rest: Seq<char>)
    ensures
        single_close(p + doubled(s) + rest, p.len() as int) == single_close(
            p + doubled(s) + rest,
            (p + doubled(s)).len() as int,
        ),
    decreases s.len(),
{
    reveal_strlit("''");
    if s.len() > 0 {
        let head = s.drop_last();
        let c = s.last();
        let one = if c == '\'' {
            "''"@
        } else {
            seq![c]
        };
        single_close_reaches(p, head, one + rest);
        let t = p + doubled(s) + rest;
        assert(doubled(s) =~= doubled(head) + one);
        assert(t =~= p + doubled(head) + (one + rest));
        let i = (p + doubled(head)).len() as int;
        assert(t[i] == one[0]);
        if c == '\'' {
            assert(t[i + 1] == '\'');
        }
    }
}

/// No colon inside a plain scalar ends a name.
proof fn no_name_inside(s: Seq<char>, t: Seq<char>, i: int)
    requires
        s.len() > 0,
        !has_text(s, ": "@),
        s.last() != ':',
        s.is_prefix_of(t),
        0 <= i <= s.len(),
    ensures
        plain_end(t, i) == plain_end(t, s.len() as int),
    decreases s.len() - i,
{
    reveal_strlit(": ");
    if i < s.len() {
        assert(t[i] == s[i]);
        if ends_name(t, i) {
            assert(i + 1 < s.len());
            assert(t[i + 1] == s[i + 1]);
            assert(s.subrange(i, i + 2) =~= ": "@);
            find_is_first(s, ": "@, 0);
            assert(occurs_at(s, ": "@, i));
        }
        no_name_inside(s, t, i + 1);
    }
}

/// A plain scalar opens with no quote, dash or bracket, and has no name in it.
proof fn plain_is_bare(s: Seq<char>)
    requires
        style(s) is Plain,
    ensures
        plain_form(s),
        s[0] != ' ',
        s[0] != '-',
        s[0] != ':',
        plain_read(s) == ValueV::Str(s),
{
    reveal_strlit("-?:,[]{}#&*!|>'\"%@`");
    reveal_strlit(":");
    let signs = "-?:,[]{}#&*!|>'\"%@`"@;
    assert(signs[0] == '-' && signs[2] == ':' && signs[4] == '[' && signs[6] == '{');
    assert(signs[12] == '|' && signs[14] == '\'' && signs[15] == '"');
    assert(!opens_with_indicator(s));
    if s.contains('\n') {
        let k = s.index_of('\n');
        assert(is_control(s[k]));
    }
    if s.last() == ':' {
        assert(s.subrange(s.len() - 1, s.len() as int) =~= ":"@);
        assert(":"@.is_suffix_of(s));
    }
}

/// The name in front of a colon is found, whichever style it is written in.
proof fn name_is_found(name: Seq<char>, rest: Seq<char>)
    requires
        rest.len() == 0 || rest[0] == ' ',
    ensures
        name_end(one_line(name) + ":"@ + rest) == one_line(name).len(),
        has_name(one_line(name) + ":"@ + rest),
        one_line(name).len() > 0,
        one_line(name)[0] != ' ',
        one_line(name)[0] != '-',
{
    reveal_strlit(":");
    reveal_strlit("'");
    reveal_strlit("\"");
    let w = one_line(name);
    let t = w + ":"@ + rest;
    assert(t[w.len() as int] == ':');
    if rest.len() > 0 {
        assert(t[w.len() as int + 1] == ' ');
    }
    match style(name) {
        Style::Plain => {
            plain_is_bare(name);
            assert(t.subrange(0, w.len() as int) =~= w);
            no_name_inside(name, t, 0);
            assert(t[0] == name[0]);
        },
        Style::Single => {
            single_close_reaches("'"@, name, "'"@ + ":"@ + rest);
            assert(t =~= "'"@ + doubled(name) + ("'"@ + ":"@ + rest));
            let i = w.len() - 1;
            assert(t[i] == '\'');
            assert(single_close(t, 1) == i);
        },
        Style::Double => {
            double_close_reaches("\""@, name, "\""@ + ":"@ + rest);
            assert(t =~= "\""@ + escaped(name) + ("\""@ + ":"@ + rest));
            let i = w.len() - 1;
            assert(t[i] == '"');
            assert(double_close(t, 1) == i);
        },
    }
}

/// A scalar on its own is not taken for a name.
proof fn scalar_is_no_name(s: Seq<char>)
    ensures
        !has_name(one_line(s)),
        !dash_at(one_line(s), 0),
{
    reveal_strlit("'");
    reveal_strlit("\"");
    let t = one_line(s);
    match style(s) {
        Style::Plain => {
            plain_is_bare(s);
            plain_has_no_name(s);
        },
        Style::Single => {
            single_close_reaches("'"@, s, "'"@);
            assert(t[t.len() - 1] == '\'');
            assert(single_close(t, 1) == t.len() - 1);
            assert(t[0] == '\'');
        },
        Style::Double => {
            double_close_reaches("\""@, s, "\""@);
            assert(t[t.len() - 1] == '"');
            assert(double_close(t, 1) == t.len() - 1);
            assert(t[0] == '"');
        },
    }
}

proof fn plain_has_no_name(s: Seq<char>)
    requires
        plain_form(s),
    ensures
        !has_name(s),
{
    assert(s.subrange(0, s.len() as int) =~= s);
    no_name_inside(s, s, 0);
}


// ------------------------------------------------------------------- the lines

/// The text is empty or ends in a line break.
pub open spec fn complete(t: Seq<char>) -> bool {
    t.len() == 0 || t.last() == '\n'
}

proof fn rows_of_line(t: Seq<char>)
    requires
        !t.contains('\n'),
    ensures
        rows(t + "\n"@) == seq![t],
        complete(t + "\n"@),
{
    reveal_strlit("\n");
    split_appended(t, Seq::empty());
    position_is_first(t, '\n');
    assert(split_of(t, '\n') =~= seq![t]);
    assert(t + "\n"@ + Seq::<char>::empty() =~= t + "\n"@);
    assert(rows(t + "\n"@) =~= seq![t]);
}

proof fn split_concat(a: Seq<char>, b: Seq<char>)
    requires
        complete(a),
    ensures
        split_of(a + b, '\n') == rows(a) + split_of(b, '\n'),
    decreases a.len(),
{
    parts_hold_no_break(a);
    if a.len() == 0 {
        position_is_first(a, '\n');
        assert(a + b =~= b);
        assert(split_of(a, '\n') =~= seq![a]);
        assert(rows(a) + split_of(b, '\n') =~= split_of(b, '\n'));
    } else {
        let p = position_of(a, '\n');
        position_is_first(a, '\n');
        position_is_first(a + b, '\n');
        assert(a[a.len() - 1] == '\n');
        assert(position_of(a + b, '\n') == p) by {
            let q = position_of(a + b, '\n');
            assert((a + b)[p] == '\n');
            if q < p {
                assert((a + b)[q] == a[q]);
            }
        }
        let rest = a.skip(p + 1);
        split_concat(rest, b);
        parts_hold_no_break(rest);
        assert((a + b).skip(p + 1) =~= rest + b);
        assert((a + b).take(p) =~= a.take(p));
        assert(rows(a) =~= seq![a.take(p)] + rows(rest));
        assert(split_of(a + b, '\n') =~= rows(a) + split_of(b, '\n'));
    }
}

proof fn rows_concat(a: Seq<char>, b: Seq<char>)
    requires
        complete(a),
        complete(b),
    ensures
        rows(a + b) == rows(a) + rows(b),
        complete(a + b),
{
    split_concat(a, b);
    parts_hold_no_break(b);
    assert(rows(a + b) =~= rows(a) + rows(b));
    if b.len() == 0 {
        assert(a + b =~= a);
    }
}

/// What stands in front of a text stands in front of its first line.
proof fn rows_behind(head: Seq<char>, t: Seq<char>)
    requires
        !head.contains('\n'),
        complete(t),
        t.len() > 0,
    ensures
        rows(t).len() > 0,
        rows(head + t) == rows(t).update(0, head + rows(t)[0]),
        complete(head + t),
        rows(t)[0].is_prefix_of(t),
{
    let p = position_of(t, '\n');
    position_is_first(t, '\n');
    position_is_first(head, '\n');
    position_is_first(head + t, '\n');
    assert(t[t.len() - 1] == '\n');
    let all = head + t;
    assert(position_of(all, '\n') == head.len() + p) by {
        let q = position_of(all, '\n');
        assert(all[head.len() + p] == '\n');
        if q < head.len() {
            assert(head[q] == '\n');
        } else if q < head.len() + p {
            assert(t[q - head.len()] == '\n');
        }
    }
    parts_hold_no_break(t.skip(p + 1));
    assert(all.skip(head.len() + p + 1) =~= t.skip(p + 1));
    assert(all.take(head.len() + p) =~= head + t.take(p));
    assert(rows(all) =~= rows(t).update(0, head + rows(t)[0]));
    assert(t.subrange(0, p) =~= t.take(p));
}

proof fn deeper_is_spaces(d: nat)
    ensures
        deeper(spaces(d)) == spaces(d + 2),
        !spaces(d).contains('\n'),
{
    reveal_strlit("  ");
    assert(deeper(spaces(d)) =~= spaces(d + 2));
    if spaces(d).contains('\n') {
        let k = spaces(d).index_of('\n');
        assert(spaces(d)[k] == ' ');
    }
}

/// A line behind `d + 2` spaces is deeper than `d`.
proof fn indented_is_beyond(line: Seq<char>, d: nat)
    requires
        spaces(d + 2).is_prefix_of(line),
    ensures
        beyond(line, d),
        !dash_at(line, d),
{
    assert(line[d as int] == spaces(d + 2)[d as int]) by {
        assert(line.subrange(0, (d + 2) as int)[d as int] == line[d as int]);
    }
    assert(line.subrange(0, (d + 1) as int) =~= spaces(d + 1)) by {
        assert forall|i: int| 0 <= i < d + 1 implies line[i] == ' ' by {
            assert(line.subrange(0, (d + 2) as int)[i] == line[i]);
        }
    }
}

proof fn beyond_starts_nothing(line: Seq<char>, d: nat)
    requires
        beyond(line, d),
    ensures
        !dash_at(line, d),
        !entry_at(line, d),
{
    if line.len() > 0 {
        assert(line.subrange(0, (d + 1) as int)[d as int] == line[d as int]);
    }
}

pub(crate) proof fn next_start_appended(a: Seq<Seq<char>>, c: Seq<Seq<char>>, i: int, d: nat, dash: bool)
    requires
        0 <= i <= a.len(),
        c.len() > 0,
        starts(c[0], d, dash),
    ensures
        next_start(a + c, i, d, dash) == next_start(a, i, d, dash),
        i <= next_start(a, i, d, dash) <= a.len(),
    decreases a.len() - i,
{
    if i < a.len() {
        assert((a + c)[i] == a[i]);
        if !starts(a[i], d, dash) {
            next_start_appended(a, c, i + 1, d, dash);
        }
    } else {
        assert((a + c)[i] == c[0]);
    }
}

pub(crate) proof fn next_start_none(c: Seq<Seq<char>>, i: int, d: nat, dash: bool)
    requires
        0 <= i <= c.len(),
        forall|j: int| i <= j < c.len() ==> !starts(#[trigger] c[j], d, dash),
    ensures
        next_start(c, i, d, dash) == c.len(),
    decreases c.len() - i,
{
    if i < c.len() {
        next_start_none(c, i + 1, d, dash);
    }
}

/// One more entry behind a mapping is read behind it.
proof fn table_appended(a: Seq<Seq<char>>, c: Seq<Seq<char>>, d: nat)
    requires
        c.len() > 0,
        entry_at(c[0], d),
    ensures
        table_read(a + c, d) == table_read(a, d) + table_read(c, d),
    decreases a.len(),
{
    if a.len() == 0 {
        assert(a + c =~= c);
        assert(table_read(a, d) + table_read(c, d) =~= table_read(c, d));
    } else {
        let n = next_start(a, 1, d, false);
        next_start_appended(a, c, 1, d, false);
        table_appended(a.skip(n), c, d);
        assert((a + c).skip(n) =~= a.skip(n) + c);
        assert((a + c).subrange(1, n) =~= a.subrange(1, n));
        assert((a + c)[0] == a[0]);
        assert(table_read(a + c, d) =~= table_read(a, d) + table_read(c, d));
    }
}

/// One more item behind a sequence is read behind it.
proof fn items_appended(a: Seq<Seq<char>>, c: Seq<Seq<char>>, d: nat)
    requires
        c.len() > 0,
        dash_at(c[0], d),
    ensures
        items_read(a + c, d) == items_read(a, d) + items_read(c, d),
    decreases a.len(),
{
    if a.len() == 0 {
        assert(a + c =~= c);
        assert(items_read(a, d) + items_read(c, d) =~= items_read(c, d));
    } else {
        let n = next_start(a, 1, d, true);
        next_start_appended(a, c, 1, d, true);
        items_appended(a.skip(n), c, d);
        assert((a + c).skip(n) =~= a.skip(n) + c);
        assert((a + c).take(n) =~= a.take(n));
        assert(items_read(a + c, d) =~= items_read(a, d) + items_read(c, d));
    }
}


// ----------------------------------------------------------------- the scalars

proof fn escaped_holds_no_break(s: Seq<char>)
    ensures
        !escaped(s).contains('\n'),
    decreases s.len(),
{
    if s.len() > 0 {
        let c = s.last();
        escaped_holds_no_break(s.drop_last());
        reveal_strlit("\\\"");
        reveal_strlit("\\\\");
        reveal_strlit("\\n");
        reveal_strlit("\\r");
        reveal_strlit("\\t");
        reveal_strlit("\\x");
        if is_control(c) {
            let n = c as int;
            reveal_with_fuel(hex_of, 3);
            assert(hex_of(n, 2) =~= seq![hex_digit((n / 16) % 16), hex_digit(n % 16)]);
        }
        assert forall|k: int| 0 <= k < escape(c).len() implies escape(c)[k] != '\n' by {}
        if escaped(s).contains('\n') {
            let k = escaped(s).index_of('\n');
            let n = escaped(s.drop_last()).len();
            if k < n {
                assert(escaped(s.drop_last())[k] == '\n');
            } else {
                assert(escape(c)[k - n] == '\n');
            }
        }
    }
}

proof fn doubled_holds_no_break(s: Seq<char>)
    requires
        !needs_escapes_of(s),
    ensures
        !doubled(s).contains('\n'),
    decreases s.len(),
{
    if s.len() > 0 {
        let head = s.drop_last();
        assert(!needs_escapes_of(head)) by {
            if needs_escapes_of(head) {
                let k = choose|k: int| 0 <= k < head.len() && is_control(#[trigger] head[k]);
                assert(is_control(s[k]));
            }
        }
        assert(!is_control(s[s.len() - 1]));
        doubled_holds_no_break(head);
        reveal_strlit("''");
        if doubled(s).contains('\n') {
            let k = doubled(s).index_of('\n');
            if k < doubled(head).len() {
                assert(doubled(head)[k] == '\n');
            }
        }
    }
}

proof fn one_line_holds_no_break(s: Seq<char>)
    ensures
        !one_line(s).contains('\n'),
{
    reveal_strlit("'");
    reveal_strlit("\"");
    let t = one_line(s);
    match style(s) {
        Style::Plain => {
            plain_is_bare(s);
        },
        Style::Single => {
            doubled_holds_no_break(s);
            if t.contains('\n') {
                let k = t.index_of('\n');
                assert(doubled(s)[k - 1] == '\n');
            }
        },
        Style::Double => {
            escaped_holds_no_break(s);
            if t.contains('\n') {
                let k = t.index_of('\n');
                assert(escaped(s)[k - 1] == '\n');
            }
        },
    }
}

/// A string on one line reads as the string.
proof fn one_line_reads(s: Seq<char>, body: Seq<Seq<char>>, d: nat)
    ensures
        inline_read(one_line(s), body, d) == ValueV::Str(s),
{
    reveal_strlit("'");
    reveal_strlit("\"");
    reveal_strlit("[]");
    reveal_strlit("{}");
    a_one_line_scalar_reads_back(s);
    let t = one_line(s);
    match style(s) {
        Style::Plain => {
            plain_is_bare(s);
            assert("[]"@[0] == '[' && "{}"@[0] == '{');
        },
        Style::Single => {
            assert(t[0] == '\'');
        },
        Style::Double => {
            assert(t[0] == '"');
        },
    }
}

proof fn bool_is_loaded(b: bool)
    ensures
        plain_form(bool_text(b)),
        plain_read(bool_text(b)) == ValueV::Bool(b),
{
    reveal_strlit("true");
    reveal_strlit("false");
    reveal_strlit(": ");
    reveal_strlit("~");
    reveal_strlit("null");
    reveal_strlit("Null");
    reveal_strlit("NULL");
    reveal_strlit("True");
    reveal_strlit("TRUE");
    reveal_strlit("yes");
    reveal_strlit("Yes");
    reveal_strlit("YES");
    reveal_strlit("on");
    reveal_strlit("On");
    reveal_strlit("ON");
    let t = bool_text(b);
    assert(t[0] == 't' || t[0] == 'f');
    if has_text(t, ": "@) {
        find_is_first(t, ": "@, 0);
        let i = choose|i: int| occurs_at(t, ": "@, i);
        assert(t.subrange(i, i + 2)[0] == ':');
        assert(t[i] == ':');
    }
    assert(t.last() == 'e');
    assert("null"@[0] == 'n' && "Null"@[0] == 'N' && "NULL"@[0] == 'N' && "~"@[0] == '~');
    assert("True"@[0] == 'T' && "TRUE"@[0] == 'T' && "yes"@[0] == 'y' && "Yes"@[0] == 'Y');
    assert("YES"@[0] == 'Y' && "on"@[0] == 'o' && "On"@[0] == 'O' && "ON"@[0] == 'O');
    assert("true"@[0] == 't' && "false"@[0] == 'f');
    assert(!symbol_reference(t));
}

/// The value is a scalar with a text.
pub open spec fn has_scalar_text(value: ValueV) -> bool {
    value is Str || value is Plain || value is Bool
}

/// The lines of a scalar behind `head`, and what they read as.
pub open spec fn scalar_stands(value: ValueV, d: nat, head: Seq<char>) -> bool {
    let t = head + scalar_text(value, spaces(d)) + "\n"@;
    let lines = rows(t);
    &&& complete(t)
    &&& lines.len() > 0
    &&& lines[0].len() > head.len()
    &&& lines[0].take(head.len() as int) == head
    &&& !has_name(lines[0].skip(head.len() as int))
    &&& !dash_at(lines[0].skip(head.len() as int), 0)
    &&& inline_read(lines[0].skip(head.len() as int), lines.skip(1), d) == value
    &&& forall|i: int| 1 <= i < lines.len() ==> beyond(#[trigger] lines[i], d)
}

proof fn line_stands(w: Seq<char>, value: ValueV, d: nat, head: Seq<char>)
    requires
        !head.contains('\n'),
        !w.contains('\n'),
        w.len() > 0,
        w == scalar_text(value, spaces(d)),
        !has_name(w),
        !dash_at(w, 0),
        forall|body: Seq<Seq<char>>| #[trigger] inline_read(w, body, d) == value,
    ensures
        scalar_stands(value, d, head),
{
    let line = head + w;
    if line.contains('\n') {
        let k = line.index_of('\n');
        if k < head.len() {
            assert(head[k] == '\n');
        } else {
            assert(w[k - head.len()] == '\n');
        }
    }
    rows_of_line(line);
    assert(line.take(head.len() as int) =~= head);
    assert(line.skip(head.len() as int) =~= w);
    assert(head + w + "\n"@ =~= line + "\n"@);
}

proof fn block_stands(s: Seq<char>, d: nat, head: Seq<char>)
    requires
        !head.contains('\n'),
        is_block_safe(s),
    ensures
        scalar_stands(ValueV::Str(s), d, head),
{
    reveal_strlit("|-");
    reveal_strlit("|");
    reveal_strlit("|+");
    reveal_strlit("\n");
    reveal_strlit("[]");
    reveal_strlit("{}");
    let pad = spaces(d + 2);
    deeper_is_spaces(d);
    deeper_is_spaces(d + 2);
    let trailing = s.len() - without_breaks(s).len();
    let parts = split_of(s, '\n');
    let header = if trailing == 0 {
        "|-"@
    } else if trailing == 1 {
        "|"@
    } else {
        "|+"@
    };
    let kept = if trailing > 0 {
        parts.len() - 1
    } else {
        parts.len() as int
    };
    let line = head + header;
    assert(!header.contains('\n'));
    if line.contains('\n') {
        let k = line.index_of('\n');
        if k < head.len() {
            assert(head[k] == '\n');
        } else {
            assert(header[k - head.len()] == '\n');
        }
    }
    parts_hold_no_break(s);
    block_is_split(header, parts, kept, pad);
    block_is_split(line, parts, kept, pad);
    a_block_scalar_reads_back(s, pad);
    let text = line + block_lines(parts, kept, pad);
    let t = head + block_scalar_of(s, pad) + "\n"@;
    assert(t =~= text + "\n"@ + Seq::<char>::empty());
    split_appended(text, Seq::empty());
    let lines = rows(t);
    assert(lines =~= split_of(text, '\n'));
    assert(line.take(head.len() as int) =~= head);
    assert(line.skip(head.len() as int) =~= header);
    let alone = split_of(block_scalar_of(s, pad), '\n');
    assert(seq![header] + lines.skip(1) =~= alone) by {
        assert forall|i: int| 1 <= i < alone.len() implies lines[i] == #[trigger] alone[i] by {
            assert(alone[(i - 1) + 1] == lines[(i - 1) + 1]);
        }
    }
    assert forall|i: int| 1 <= i < lines.len() implies beyond(#[trigger] lines[i], d) by {
        let part = parts[i - 1];
        assert(lines[(i - 1) + 1] == if part.len() == 0 {
            part
        } else {
            pad + part
        });
        if part.len() > 0 {
            assert((pad + part).subrange(0, pad.len() as int) =~= pad);
            indented_is_beyond(pad + part, d);
        }
    }
    assert(header[0] == '|');
    assert(!has_name(header)) by {
        reveal_with_fuel(plain_end, 3);
    }
}

proof fn scalar_reads(value: ValueV, d: nat, head: Seq<char>)
    requires
        !head.contains('\n'),
        has_scalar_text(value),
        as_loaded(value),
    ensures
        scalar_stands(value, d, head),
{
    let w = scalar_text(value, spaces(d));
    reveal_strlit("[]");
    reveal_strlit("{}");
    match value {
        ValueV::Str(s) => {
            if is_block_safe(s) {
                block_stands(s, d, head);
            } else {
                one_line_holds_no_break(s);
                scalar_is_no_name(s);
                assert forall|body: Seq<Seq<char>>| #[trigger] inline_read(w, body, d)
                    == value by {
                    one_line_reads(s, body, d);
                }
                name_is_found(s, Seq::empty());
                line_stands(w, value, d, head);
            }
        },
        ValueV::Plain(s) => {
            plain_has_no_name(s);
            assert("[]"@[0] == '[' && "{}"@[0] == '{');
            line_stands(w, value, d, head);
        },
        ValueV::Bool(b) => {
            bool_is_loaded(b);
            plain_has_no_name(w);
            assert("[]"@[0] == '[' && "{}"@[0] == '{');
            line_stands(w, value, d, head);
        },
        _ => {},
    }
}


// ------------------------------------------------------------- the collections

/// A line is behind `d` spaces, or is empty.
pub open spec fn within(line: Seq<char>, d: nat) -> bool {
    line.len() == 0 || spaces(d).is_prefix_of(line)
}

/// The lines behind a name read as the value.
pub open spec fn value_stands(value: ValueV, d: nat) -> bool {
    let t = written_value(value, spaces(d));
    let lines = rows(t);
    &&& complete(t)
    &&& t.len() > 0
    &&& lines.len() > 0
    &&& lines[0].len() > 0
    &&& lines[0][0] == ':'
    &&& lines[0].len() == 1 || lines[0][1] == ' '
    &&& value_read(lines[0].skip(1), lines.skip(1), d) == value
    &&& forall|i: int|
        1 <= i < lines.len() ==> beyond(#[trigger] lines[i], d) || dash_at(lines[i], d)
}

/// The lines of a mapping read as its entries.
pub open spec fn table_stands(entries: Seq<(Seq<char>, ValueV)>, n: nat, d: nat) -> bool {
    let t = written_table(entries, n, spaces(d));
    let lines = rows(t);
    &&& complete(t)
    &&& n > 0 ==> lines.len() > 0 && entry_at(lines[0], d) && has_name(lines[0].skip(d as int))
    &&& table_read(lines, d) == entries.take(n as int)
    &&& forall|i: int| 0 <= i < lines.len() ==> within(#[trigger] lines[i], d)
}

/// The lines of an item read as the item.
pub open spec fn item_stands(item: ValueV, d: nat) -> bool {
    let t = written_item(item, spaces(d));
    let lines = rows(t);
    &&& complete(t)
    &&& lines.len() > 0
    &&& dash_at(lines[0], d)
    &&& item_read(lines, d) == item
    &&& forall|i: int| 1 <= i < lines.len() ==> beyond(#[trigger] lines[i], d)
}

/// The lines of a sequence read as its items.
pub open spec fn items_stand(items: Seq<ValueV>, n: nat, d: nat) -> bool {
    let t = written_items(items, n, spaces(d));
    let lines = rows(t);
    &&& complete(t)
    &&& n > 0 ==> lines.len() > 0 && dash_at(lines[0], d)
    &&& items_read(lines, d) == items.take(n as int)
    &&& forall|i: int|
        0 <= i < lines.len() ==> beyond(#[trigger] lines[i], d) || dash_at(lines[i], d)
}

/// A value on the line of its name.
proof fn inline_stands(value: ValueV, d: nat, w: Seq<char>)
    requires
        !w.contains('\n'),
        w.len() > 0,
        written_value(value, spaces(d)) == ": "@ + w + "\n"@,
        inline_read(w, Seq::empty(), d) == value,
    ensures
        value_stands(value, d),
{
    reveal_strlit(": ");
    reveal_strlit("\n");
    let line = ": "@ + w;
    if line.contains('\n') {
        let k = line.index_of('\n');
        assert(w[k - 2] == '\n');
    }
    rows_of_line(line);
    let lines = rows(line + "\n"@);
    assert(lines.skip(1) =~= Seq::empty());
    assert(line.skip(1).skip(1) =~= w);
}

/// Lines below a name.
proof fn below_stands(value: ValueV, d: nat, block: Seq<char>)
    requires
        complete(block),
        rows(block).len() > 0,
        written_value(value, spaces(d)) == ":\n"@ + block,
        value_read(Seq::empty(), rows(block), d) == value,
        forall|i: int|
            0 <= i < rows(block).len() ==> beyond(#[trigger] rows(block)[i], d) || dash_at(
                rows(block)[i],
                d,
            ),
    ensures
        value_stands(value, d),
{
    reveal_strlit(":\n");
    reveal_strlit(":");
    reveal_strlit("\n");
    assert(!":"@.contains('\n'));
    rows_of_line(":"@);
    assert(":"@ + "\n"@ =~= ":\n"@);
    rows_concat(":\n"@, block);
    let lines = rows(":\n"@ + block);
    assert(lines.skip(1) =~= rows(block));
    assert(lines[0].skip(1) =~= Seq::empty());
    assert forall|i: int| 1 <= i < lines.len() implies beyond(#[trigger] lines[i], d) || dash_at(
        lines[i],
        d,
    ) by {
        assert(lines[i] == rows(block)[i - 1]);
    }
}

/// A collection behind a dash.
proof fn dashed_stands(item: ValueV, d: nat, block: Seq<char>)
    requires
        complete(block),
        block.len() > 0,
        rows(block).len() > 0,
        spaces(d + 2).is_prefix_of(rows(block)[0]),
        written_item(item, spaces(d)) == dashed(block, spaces(d)),
        forall|i: int| 1 <= i < rows(block).len() ==> within(#[trigger] rows(block)[i], d + 2),
        ({
            let t = rows(block)[0].skip((d + 2) as int);
            if dash_at(t, 0) {
                item == ValueV::List(items_read(rows(block), d + 2))
            } else {
                has_name(t) && item == ValueV::Table(table_read(rows(block), d + 2))
            }
        }),
    ensures
        item_stands(item, d),
{
    reveal_strlit("- ");
    deeper_is_spaces(d);
    deeper_is_spaces(d + 2);
    let deep = spaces(d + 2);
    let rest = block.skip((d + 2) as int);
    let head = spaces(d) + "- "@;
    if head.contains('\n') {
        let k = head.index_of('\n');
        if k < d {
            assert(spaces(d)[k] == '\n');
        }
    }
    rows_behind(Seq::empty(), block);
    let first = rows(block)[0];
    assert(block =~= deep + rest) by {
        assert(first.is_prefix_of(block));
        assert forall|i: int| 0 <= i < d + 2 implies block[i] == deep[i] by {
            assert(block.subrange(0, first.len() as int)[i] == block[i]);
            assert(first.subrange(0, deep.len() as int)[i] == first[i]);
        }
    }
    assert(block.last() == '\n');
    assert(rest.len() > 0) by {
        if rest.len() == 0 {
            assert(block.last() == deep.last());
        }
    }
    rows_behind(deep, rest);
    rows_behind(head, rest);
    let lines = rows(head + rest);
    let w = rows(rest)[0];
    assert(first == deep + w);
    assert(lines[0] == head + w);
    assert(first.skip((d + 2) as int) =~= w);
    assert(lines[0].skip(d as int + 2) =~= w);
    assert(lines.update(0, deep + w) =~= rows(block));
    assert(lines[0].subrange(0, d as int) =~= spaces(d));
    assert(lines[0][d as int] == head[d as int]);
    assert(lines[0][d as int + 1] == head[d as int + 1]);
    assert(dash_at(lines[0], d));
    assert forall|i: int| 1 <= i < lines.len() implies beyond(#[trigger] lines[i], d) by {
        assert(lines[i] == rows(block)[i]);
        if lines[i].len() > 0 {
            indented_is_beyond(lines[i], d);
        }
    }
}

/// A value on the line of its dash.
proof fn inline_item_stands(item: ValueV, d: nat, w: Seq<char>)
    requires
        !w.contains('\n'),
        w.len() > 0,
        written_item(item, spaces(d)) == spaces(d) + "- "@ + w + "\n"@,
        !dash_at(w, 0),
        !has_name(w),
        inline_read(w, Seq::empty(), d) == item,
    ensures
        item_stands(item, d),
{
    reveal_strlit("- ");
    deeper_is_spaces(d);
    let line = spaces(d) + "- "@ + w;
    if line.contains('\n') {
        let k = line.index_of('\n');
        if k < d {
            assert(spaces(d)[k] == '\n');
        } else if k >= d + 2 {
            assert(w[k - d - 2] == '\n');
        }
    }
    rows_of_line(line);
    let lines = rows(line + "\n"@);
    assert(line.skip(d as int + 2) =~= w);
    assert(lines.skip(1) =~= Seq::empty());
    assert(line.subrange(0, d as int) =~= spaces(d));
}

proof fn scalar_item_stands(item: ValueV, d: nat)
    requires
        has_scalar_text(item),
        as_loaded(item),
    ensures
        item_stands(item, d),
{
    reveal_strlit("- ");
    reveal_strlit("\n");
    deeper_is_spaces(d);
    let head = spaces(d) + "- "@;
    if head.contains('\n') {
        let k = head.index_of('\n');
        if k < d {
            assert(spaces(d)[k] == '\n');
        }
    }
    scalar_reads(item, d, head);
    let w = scalar_text(item, spaces(d));
    let t = head + w + "\n"@;
    let block = deeper(spaces(d)) + w + "\n"@;
    assert(block.skip(d as int + 2) =~= w + "\n"@);
    assert(written_item(item, spaces(d)) =~= t);
    let lines = rows(t);
    let line = lines[0];
    assert(line.subrange(0, d as int) =~= spaces(d)) by {
        assert forall|i: int| 0 <= i < d implies line[i] == ' ' by {
            assert(line.take(head.len() as int)[i] == head[i]);
        }
    }
    assert(line[d as int] == line.take(head.len() as int)[d as int]);
    assert(line[d as int + 1] == line.take(head.len() as int)[d as int + 1]);
    assert(dash_at(line, d));
}

proof fn value_reads(value: ValueV, d: nat)
    requires
        as_loaded(value),
    ensures
        value_stands(value, d),
    decreases value, 0nat,
{
    let pad = spaces(d);
    reveal_strlit(":\n");
    reveal_strlit(": ");
    reveal_strlit("\n");
    reveal_strlit(": []\n");
    reveal_strlit(": {}\n");
    reveal_strlit("[]");
    reveal_strlit("{}");
    reveal_strlit(":");
    deeper_is_spaces(d);
    match value {
        ValueV::Nil => {
            assert(!":"@.contains('\n'));
            rows_of_line(":"@);
            assert(":"@ + "\n"@ =~= ":\n"@);
            let lines = rows(":\n"@);
            assert(lines.skip(1) =~= Seq::empty());
        },
        ValueV::List(items) => {
            if items.len() == 0 {
                assert(": []\n"@ =~= ": "@ + "[]"@ + "\n"@);
                assert(items =~= Seq::empty());
                inline_stands(value, d, "[]"@);
            } else {
                items_are_read(items, items.len(), d);
                let block = written_items(items, items.len(), pad);
                assert(items.take(items.len() as int) =~= items);
                below_stands(value, d, block);
            }
        },
        ValueV::Table(entries) => {
            if entries.len() == 0 {
                assert(": {}\n"@ =~= ": "@ + "{}"@ + "\n"@);
                assert(entries =~= Seq::empty());
                assert("[]"@[0] != "{}"@[0]);
                inline_stands(value, d, "{}"@);
            } else {
                table_reads(entries, entries.len(), d + 2);
                let block = written_table(entries, entries.len(), spaces(d + 2));
                assert(entries.take(entries.len() as int) =~= entries);
                assert forall|i: int| 0 <= i < rows(block).len() implies beyond(
                    #[trigger] rows(block)[i],
                    d,
                ) by {
                    if rows(block)[i].len() > 0 {
                        indented_is_beyond(rows(block)[i], d);
                    }
                }
                beyond_starts_nothing(rows(block)[0], d);
                below_stands(value, d, block);
            }
        },
        _ => {
            let head = ": "@;
            assert(!head.contains('\n'));
            scalar_reads(value, d, head);
            let t = head + scalar_text(value, pad) + "\n"@;
            assert(written_value(value, pad) =~= t);
            let lines = rows(t);
            let line = lines[0];
            assert(line[0] == line.take(2)[0]);
            assert(line[1] == line.take(2)[1]);
            assert(line.skip(1).skip(1) =~= line.skip(2));
        },
    }
}

proof fn items_are_read(items: Seq<ValueV>, n: nat, d: nat)
    requires
        n <= items.len(),
        forall|i: int| 0 <= i < items.len() ==> as_loaded(#[trigger] items[i]),
    ensures
        items_stand(items, n, d),
    decreases items, n,
{
    let pad = spaces(d);
    if n == 0 {
        empty_rows();
        assert(items.take(0) =~= Seq::empty());
    } else {
        let m = (n - 1) as nat;
        items_are_read(items, m, d);
        item_reads(items[m as int], d);
        let before = written_items(items, m, pad);
        let one = written_item(items[m as int], pad);
        rows_concat(before, one);
        let a = rows(before);
        let c = rows(one);
        assert forall|j: int| 1 <= j < c.len() implies !starts(#[trigger] c[j], d, true) by {
            beyond_starts_nothing(c[j], d);
        }
        next_start_none(c, 1, d, true);
        items_appended(a, c, d);
        assert(c.take(c.len() as int) =~= c);
        assert(c.skip(c.len() as int) =~= Seq::empty());
        assert(items_read(Seq::empty(), d) =~= Seq::empty());
        assert(items_read(c, d) =~= seq![items[m as int]]);
        assert(items.take(n as int) =~= items.take(m as int) + seq![items[m as int]]);
        let lines = a + c;
        if m == 0 {
            empty_rows();
            assert(lines[0] == c[0]);
        } else {
            assert(lines[0] == a[0]);
        }
        assert forall|i: int| 0 <= i < lines.len() implies beyond(#[trigger] lines[i], d)
            || dash_at(lines[i], d) by {
            if i < a.len() {
                assert(lines[i] == a[i]);
            } else {
                assert(lines[i] == c[i - a.len()]);
            }
        }
    }
}

proof fn empty_rows()
    ensures
        rows(Seq::empty()) == Seq::<Seq<char>>::empty(),
{
    let none = Seq::<char>::empty();
    position_is_first(none, '\n');
    assert(split_of(none, '\n') =~= seq![none]);
    assert(rows(none) =~= Seq::empty());
}

proof fn item_reads(item: ValueV, d: nat)
    requires
        as_loaded(item),
    ensures
        item_stands(item, d),
    decreases item, 1nat,
{
    let pad = spaces(d);
    reveal_strlit("-\n");
    reveal_strlit("-");
    reveal_strlit("- ");
    reveal_strlit("\n");
    reveal_strlit("- []\n");
    reveal_strlit("- {}\n");
    reveal_strlit("[]");
    reveal_strlit("{}");
    deeper_is_spaces(d);
    match item {
        ValueV::Nil => {
            let line = pad + "-"@;
            if line.contains('\n') {
                let k = line.index_of('\n');
                if k < d {
                    assert(pad[k] == '\n');
                }
            }
            rows_of_line(line);
            assert(pad + "-\n"@ =~= line + "\n"@);
            assert(line.subrange(0, d as int) =~= pad);
        },
        ValueV::List(inner) => {
            if inner.len() == 0 {
                assert(pad + "- []\n"@ =~= pad + "- "@ + "[]"@ + "\n"@);
                assert(inner =~= Seq::empty());
                reveal_with_fuel(plain_end, 3);
                inline_item_stands(item, d, "[]"@);
            } else {
                items_are_read(inner, inner.len(), d + 2);
                let block = written_items(inner, inner.len(), spaces(d + 2));
                assert(inner.take(inner.len() as int) =~= inner);
                empty_rows();
                let lines = rows(block);
                let first = lines[0];
                assert(first.skip((d + 2) as int).subrange(0, 0) =~= spaces(0));
                assert forall|i: int| 1 <= i < lines.len() implies within(
                    #[trigger] lines[i],
                    d + 2,
                ) by {
                    if beyond(lines[i], d + 2) && lines[i].len() > 0 {
                        assert(lines[i].subrange(0, (d + 2) as int) =~= spaces(d + 2)) by {
                            assert forall|k: int| 0 <= k < d + 2 implies lines[i][k] == ' ' by {
                                assert(lines[i].subrange(0, (d + 3) as int)[k] == lines[i][k]);
                            }
                        }
                    }
                }
                dashed_stands(item, d, block);
            }
        },
        ValueV::Table(inner) => {
            if inner.len() == 0 {
                assert(pad + "- {}\n"@ =~= pad + "- "@ + "{}"@ + "\n"@);
                assert(inner =~= Seq::empty());
                assert("[]"@[0] != "{}"@[0]);
                reveal_with_fuel(plain_end, 3);
                inline_item_stands(item, d, "{}"@);
            } else {
                table_reads(inner, inner.len(), d + 2);
                let block = written_table(inner, inner.len(), spaces(d + 2));
                assert(inner.take(inner.len() as int) =~= inner);
                empty_rows();
                let first = rows(block)[0];
                let w = first.skip((d + 2) as int);
                assert(!dash_at(w, 0)) by {
                    if dash_at(w, 0) {
                        assert(first[(d + 2) as int] == w[0]);
                        if w.len() > 1 {
                            assert(first[(d + 2) as int + 1] == w[1]);
                        }
                        assert(dash_at(first, d + 2));
                    }
                }
                dashed_stands(item, d, block);
            }
        },
        _ => {
            scalar_item_stands(item, d);
        },
    }
}

/// The lines of one entry of a mapping.
proof fn entry_stands(name: Seq<char>, value: ValueV, d: nat)
    requires
        value_stands(value, d),
    ensures
        ({
            let t = spaces(d) + one_line(name) + written_value(value, spaces(d));
            let c = rows(t);
            &&& complete(t)
            &&& c.len() > 0
            &&& entry_at(c[0], d)
            &&& has_name(c[0].skip(d as int))
            &&& table_read(c, d) == seq![(name, value)]
            &&& forall|i: int| 0 <= i < c.len() ==> within(#[trigger] c[i], d)
        }),
{
    reveal_strlit(":");
    let pad = spaces(d);
    let text = written_value(value, pad);
    let lines = rows(text);
    let w = one_line(name);
    let head = pad + w;
    let rest = lines[0].skip(1);
    deeper_is_spaces(d);
    one_line_holds_no_break(name);
    if head.contains('\n') {
        let k = head.index_of('\n');
        if k < d {
            assert(pad[k] == '\n');
        } else {
            assert(w[k - d] == '\n');
        }
    }
    rows_behind(head, text);
    let c = rows(head + text);
    assert(c[0] == head + lines[0]);
    let t = c[0].skip(d as int);
    assert(lines[0] =~= ":"@ + rest);
    assert(t =~= w + ":"@ + rest);
    name_is_found(name, rest);
    a_one_line_scalar_reads_back(name);
    assert(t.take(w.len() as int) =~= w);
    assert(t.skip(w.len() as int + 1) =~= rest);
    assert(c[0].subrange(0, d as int) =~= pad);
    assert(c[0][d as int] == w[0]);
    assert(entry_at(c[0], d));
    assert forall|j: int| 1 <= j < c.len() implies !starts(#[trigger] c[j], d, false) && within(
        c[j],
        d,
    ) by {
        assert(c[j] == lines[j]);
        if beyond(c[j], d) {
            beyond_starts_nothing(c[j], d);
            if c[j].len() > 0 {
                assert(c[j].subrange(0, d as int) =~= pad) by {
                    assert forall|k: int| 0 <= k < d implies c[j][k] == ' ' by {
                        assert(c[j].subrange(0, (d + 1) as int)[k] == c[j][k]);
                    }
                }
            }
        }
    }
    next_start_none(c, 1, d, false);
    assert(c.subrange(1, c.len() as int) =~= lines.skip(1));
    assert(c.skip(c.len() as int) =~= Seq::empty());
    assert(table_read(Seq::empty(), d) =~= Seq::empty());
    assert(table_read(c, d) =~= seq![(name, value)]);
}

proof fn table_reads(entries: Seq<(Seq<char>, ValueV)>, n: nat, d: nat)
    requires
        n <= entries.len(),
        forall|i: int| 0 <= i < entries.len() ==> as_loaded((#[trigger] entries[i]).1),
    ensures
        table_stands(entries, n, d),
    decreases entries, n,
{
    let pad = spaces(d);
    if n == 0 {
        empty_rows();
        assert(entries.take(0) =~= Seq::empty());
    } else {
        let m = (n - 1) as nat;
        table_reads(entries, m, d);
        let entry = entries[m as int];
        value_reads(entry.1, d);
        entry_stands(entry.0, entry.1, d);
        let before = written_table(entries, m, pad);
        let one = pad + one_line(entry.0) + written_value(entry.1, pad);
        assert(written_table(entries, n, pad) =~= before + one);
        rows_concat(before, one);
        let a = rows(before);
        let c = rows(one);
        table_appended(a, c, d);
        assert(entries.take(n as int) =~= entries.take(m as int) + seq![entry]);
        let lines = a + c;
        if m == 0 {
            empty_rows();
            assert(lines[0] == c[0]);
        } else {
            assert(lines[0] == a[0]);
        }
        assert forall|i: int| 0 <= i < lines.len() implies within(#[trigger] lines[i], d) by {
            if i < a.len() {
                assert(lines[i] == a[i]);
            } else {
                assert(lines[i] == c[i - a.len()]);
            }
        }
    }
}


// ------------------------------------------------------------------------ laws

/// The values of a level, by their names.
pub open spec fn as_table(level: Level) -> Seq<(Seq<char>, ValueV)>
    decreases level,
{
    Seq::new(
        level.len(),
        |i: int|
            if 0 <= i < level.len() {
                (level[i].0, as_value(level[i].1))
            } else {
                arbitrary()
            },
    )
}

/// The value of an entry: a branch is a mapping.
pub open spec fn as_value(entry: EntryV) -> ValueV
    decreases entry,
{
    match entry {
        EntryV::Leaf(value) => value,
        EntryV::Branch(child) => ValueV::Table(as_table(child)),
    }
}

/// Every value of a level is one that the loader gives.
pub open spec fn level_as_loaded(level: Level) -> bool {
    as_loaded(ValueV::Table(as_table(level)))
}

/// The level that holds the named values.
pub open spec fn as_level(entries: Seq<(Seq<char>, ValueV)>) -> Level {
    Seq::new(entries.len(), |i: int| (entries[i].0, EntryV::Leaf(entries[i].1)))
}

proof fn written_alike(level: Level, n: nat, pad: Seq<char>)
    requires
        n <= level.len(),
    ensures
        written_level(level, n, pad) == written_table(as_table(level), n, pad),
    decreases level, n,
{
    if n > 0 {
        let m = (n - 1) as nat;
        written_alike(level, m, pad);
        match level[m as int].1 {
            EntryV::Leaf(_) => {},
            EntryV::Branch(child) => {
                written_alike(child, child.len(), deeper(pad));
                assert(as_table(child).len() == child.len());
            },
        }
        assert(as_table(level)[m as int] == (level[m as int].0, as_value(level[m as int].1)));
        assert(written_entry(level[m as int].1, pad) == written_value(
            as_value(level[m as int].1),
            pad,
        ));
    }
}

/// A locale file is a mapping of one name, the locale, to the whole tree.
proof fn a_file_is_one_entry(locale: Seq<char>, level: Level)
    ensures
        emitted(locale, level) == "---\n"@ + (spaces(0) + one_line(locale) + written_value(
            ValueV::Table(as_table(level)),
            spaces(0),
        )),
{
    reveal_strlit("  ");
    deeper_is_spaces(0);
    written_alike(level, level.len(), "  "@);
    assert("  "@ =~= spaces(2));
    assert(as_table(level).len() == level.len());
    assert(emitted(locale, level) =~= "---\n"@ + (spaces(0) + one_line(locale) + written_value(
        ValueV::Table(as_table(level)),
        spaces(0),
    )));
}

/// No value is lost or changed by writing it: a locale file reads as the locale
/// and the tree that it was written from.
pub proof fn a_written_file_reads_back(locale: Seq<char>, level: Level)
    requires
        level_as_loaded(level),
    ensures
        document_read(emitted(locale, level)) == seq![(locale, ValueV::Table(as_table(level)))],
{
    let value = ValueV::Table(as_table(level));
    a_file_is_one_entry(locale, level);
    value_reads(value, 0);
    entry_stands(locale, value, 0);
    let text = spaces(0) + one_line(locale) + written_value(value, spaces(0));
    reveal_strlit("---\n");
    reveal_strlit("---");
    reveal_strlit("\n");
    assert(!"---"@.contains('\n'));
    rows_of_line("---"@);
    assert("---"@ + "\n"@ =~= "---\n"@);
    rows_concat("---\n"@, text);
    assert(rows(emitted(locale, level)).skip(1) =~= rows(text));
}

/// Writing twice gives the same file: what a written file reads as is written
/// in the same way again.
pub proof fn writing_again_gives_the_same_file(locale: Seq<char>, level: Level)
    requires
        level_as_loaded(level),
    ensures
        ({
            let read = document_read(emitted(locale, level))[0];
            emitted(read.0, as_level(read.1->Table_0)) == emitted(locale, level)
        }),
{
    a_written_file_reads_back(locale, level);
    let again = as_level(as_table(level));
    assert(as_table(again) =~= as_table(level));
    a_file_is_one_entry(locale, level);
    a_file_is_one_entry(locale, again);
}

/// Two trees that are written alike hold the same values under the same names.
pub proof fn different_trees_are_written_differently(
    one_locale: Seq<char>,
    one: Level,
    other_locale: Seq<char>,
    other: Level,
)
    requires
        level_as_loaded(one),
        level_as_loaded(other),
        emitted(one_locale, one) == emitted(other_locale, other),
    ensures
        one_locale == other_locale,
        as_table(one) == as_table(other),
{
    a_written_file_reads_back(one_locale, one);
    a_written_file_reads_back(other_locale, other);
    let a = seq![(one_locale, ValueV::Table(as_table(one)))];
    let b = seq![(other_locale, ValueV::Table(as_table(other)))];
    assert(a[0] == b[0]);
}


/// A plain scalar that stands for itself is written in a form that can be
/// plain.
pub open spec fn plain_scalars(node: NodeV) -> bool
    decreases node,
{
    match node {
        NodeV::Scalar { value, plain, .. } => plain && plain_read(value) is Plain ==> plain_form(
            value,
        ),
        NodeV::List { items, .. } => forall|i: int|
            0 <= i < items.len() ==> plain_scalars(#[trigger] items[i]),
        NodeV::Mapping { entries, .. } => forall|i: int|
            0 <= i < entries.len() ==> plain_scalars((#[trigger] entries[i]).1),
    }
}

/// What the loader makes of a node can be written and read back.
pub proof fn a_loaded_value_can_be_written(node: NodeV, path: Seq<char>, in_sequence: bool)
    requires
        plain_scalars(node),
        value_of(node, path, in_sequence) is Ok,
    ensures
        as_loaded(value_of(node, path, in_sequence)->Ok_0),
    decreases node, 0nat,
{
    match node {
        NodeV::Scalar { .. } => {},
        NodeV::List { items, .. } => {
            loaded_items(items, items.len(), path);
        },
        NodeV::Mapping { entries, .. } => {
            loaded_entries(entries, entries.len(), path, in_sequence);
        },
    }
}

proof fn loaded_items(items: Seq<NodeV>, n: nat, path: Seq<char>)
    requires
        n <= items.len(),
        forall|i: int| 0 <= i < items.len() ==> plain_scalars(#[trigger] items[i]),
        items_upto(items, n, path) is Ok,
    ensures
        ({
            let values = items_upto(items, n, path)->Ok_0;
            forall|i: int| 0 <= i < values.len() ==> as_loaded(#[trigger] values[i])
        }),
    decreases items, n,
{
    if n > 0 {
        loaded_items(items, (n - 1) as nat, path);
        a_loaded_value_can_be_written(items[n - 1], path, true);
    }
}

proof fn loaded_entries(entries: Seq<(NodeV, NodeV)>, n: nat, path: Seq<char>, in_sequence: bool)
    requires
        n <= entries.len(),
        forall|i: int| 0 <= i < entries.len() ==> plain_scalars((#[trigger] entries[i]).1),
        entries_upto(entries, n, path, in_sequence) is Ok,
    ensures
        ({
            let values = entries_upto(entries, n, path, in_sequence)->Ok_0;
            forall|i: int| 0 <= i < values.len() ==> as_loaded((#[trigger] values[i]).1)
        }),
    decreases entries, n,
{
    if n > 0 {
        loaded_entries(entries, (n - 1) as nat, path, in_sequence);
        a_loaded_value_can_be_written(entries[n - 1].1, path, in_sequence);
    }
}

proof fn entry_is_loaded(level: Level, i: int)
    requires
        level_as_loaded(level),
        0 <= i < level.len(),
    ensures
        as_loaded(as_value(level[i].1)),
{
    let entries = as_table(level);
    assert(entries[i] == (level[i].0, as_value(level[i].1)));
    assert(entries.len() == level.len());
    let value = ValueV::Table(entries);
    assert(as_loaded(value));
    assert(value->Table_0[i] == entries[i]);
}

/// A tree of loaded values stays one with another loaded value in it.
pub proof fn an_insert_keeps_values_loaded(level: Level, segments: Seq<Seq<char>>, value: ValueV)
    requires
        level_as_loaded(level),
        as_loaded(value),
    ensures
        level_as_loaded(inserted(level, segments, value)),
    decreases segments.len(),
{
    let new = inserted(level, segments, value);
    if segments.len() == 1 && !has_branch(level, segments[0]) {
        placed_is_loaded(level, segments[0], EntryV::Leaf(value));
    } else if segments.len() > 1 {
        let child = branch_at(level, segments[0]);
        assert(level_as_loaded(child)) by {
            if names_of(level).contains(segments[0]) {
                let i = names_of(level).index_of(segments[0]);
                entry_is_loaded(level, i);
            }
            assert(as_table(Seq::empty()) =~= Seq::empty());
        }
        an_insert_keeps_values_loaded(child, segments.skip(1), value);
        placed_is_loaded(
            level,
            segments[0],
            EntryV::Branch(inserted(child, segments.skip(1), value)),
        );
    }
}

proof fn placed_is_loaded(level: Level, name: Seq<char>, entry: EntryV)
    requires
        level_as_loaded(level),
        as_loaded(as_value(entry)),
    ensures
        level_as_loaded(placed(level, name, entry)),
{
    let new = placed(level, name, entry);
    assert forall|i: int| 0 <= i < as_table(new).len() implies as_loaded(
        (#[trigger] as_table(new)[i]).1,
    ) by {
        assert(as_table(new)[i].1 == as_value(new[i].1));
        if new[i] != (name, entry) {
            assert(new[i] == level[i]);
            entry_is_loaded(level, i);
        }
    }
}

/// A tree of loaded values stays one when it is sorted.
pub proof fn sorting_keeps_values_loaded(new: Level, level: Level)
    requires
        level_as_loaded(level),
        sorts(new, level),
    ensures
        level_as_loaded(new),
    decreases level,
{
    assert forall|j: int| 0 <= j < as_table(new).len() implies as_loaded(
        (#[trigger] as_table(new)[j]).1,
    ) by {
        assert(names_of(level).contains(new[j].0));
        let i = names_of(level).index_of(new[j].0);
        assert(level[i].0 == new[j].0);
        assert(holds_sorted(new, level[i].0, level[i].1));
        let k = choose|k: int|
            0 <= k < new.len() && (#[trigger] new[k]).0 == level[i].0 && entry_sorts(
                new[k].1,
                level[i].1,
            );
        assert(names_of(new)[k] == names_of(new)[j]);
        sorted_has_no_duplicates(names_of(new));
        assert(k == j);
        entry_is_loaded(level, i);
        match level[i].1 {
            EntryV::Leaf(_) => {},
            EntryV::Branch(child) => {
                sorting_keeps_values_loaded(new[j].1->Branch_0, child);
            },
        }
    }
}

/// What stands at a path of a level.
pub open spec fn entry_of(level: Level, path: Seq<Seq<char>>) -> Option<EntryV>
    decreases path.len(),
{
    if path.len() == 0 || !names_of(level).contains(path[0]) {
        None
    } else {
        let entry = level[names_of(level).index_of(path[0])].1;
        if path.len() == 1 {
            Some(entry)
        } else {
            match entry {
                EntryV::Branch(child) => entry_of(child, path.skip(1)),
                EntryV::Leaf(_) => None,
            }
        }
    }
}

/// What stands at a path of nested mappings.
pub open spec fn value_at(entries: Seq<(Seq<char>, ValueV)>, path: Seq<Seq<char>>) -> Option<ValueV>
    decreases path.len(),
{
    let names = Seq::new(entries.len(), |i: int| entries[i].0);
    if path.len() == 0 || !names.contains(path[0]) {
        None
    } else {
        let value = entries[names.index_of(path[0])].1;
        if path.len() == 1 {
            Some(value)
        } else {
            match value {
                ValueV::Table(inner) => value_at(inner, path.skip(1)),
                _ => None,
            }
        }
    }
}

/// No name stands twice in a level, nor in a level below it.
pub open spec fn names_differ(level: Level) -> bool
    decreases level,
{
    &&& names_of(level).no_duplicates()
    &&& forall|i: int| 0 <= i < level.len() ==> names_below_differ((#[trigger] level[i]).1)
}

/// No name stands twice in a level below an entry.
pub open spec fn names_below_differ(entry: EntryV) -> bool
    decreases entry,
{
    match entry {
        EntryV::Leaf(_) => true,
        EntryV::Branch(child) => names_differ(child),
    }
}

proof fn branch_names_differ(level: Level, name: Seq<char>)
    requires
        names_differ(level),
    ensures
        names_differ(branch_at(level, name)),
{
    if names_of(level).contains(name) {
        let i = names_of(level).index_of(name);
        assert(names_below_differ(level[i].1));
    }
}

proof fn placed_is_found(level: Level, name: Seq<char>, entry: EntryV, other: Seq<char>)
    requires
        names_of(level).no_duplicates(),
    ensures
        names_of(placed(level, name, entry)).contains(name),
        placed(level, name, entry)[names_of(placed(level, name, entry)).index_of(name)].1 == entry,
        other != name ==> (names_of(placed(level, name, entry)).contains(other) <==> names_of(
            level,
        ).contains(other)),
        other != name && names_of(level).contains(other) ==> placed(level, name, entry)[names_of(
            placed(level, name, entry),
        ).index_of(other)] == level[names_of(level).index_of(other)],
{
    let new = placed(level, name, entry);
    let before = names_of(level);
    let after = names_of(new);
    if before.contains(name) {
        assert(after =~= before);
    } else {
        assert(after =~= before.push(name));
        assert(after[before.len() as int] == name);
        let k = after.index_of(name);
        if k < before.len() {
            assert(before[k] == name);
        }
        if other != name {
            if before.contains(other) {
                let i = before.index_of(other);
                assert(after[i] == other);
                let j = after.index_of(other);
                assert(after[j] == other);
                assert(j < before.len());
                assert(before[j] == other);
                assert(i == j);
            }
            if after.contains(other) {
                let j = after.index_of(other);
                assert(before[j] == other);
            }
        }
    }
}

/// A value that is put into a tree stands at its path, unless a mapping stands
/// there: the mapping wins.
pub proof fn an_inserted_value_is_found(level: Level, path: Seq<Seq<char>>, value: ValueV)
    requires
        names_differ(level),
        path.len() > 0,
        !(entry_of(level, path) matches Some(e) && e is Branch),
    ensures
        entry_of(inserted(level, path, value), path) == Some(EntryV::Leaf(value)),
    decreases path.len(),
{
    let name = path[0];
    if path.len() == 1 {
        placed_is_found(level, name, EntryV::Leaf(value), name);
    } else {
        let child = branch_at(level, name);
        let rest = path.skip(1);
        branch_names_differ(level, name);
        an_inserted_value_is_found(child, rest, value);
        placed_is_found(level, name, EntryV::Branch(inserted(child, rest, value)), name);
    }
}

/// A tree in which no name stands twice on a level stays one with another
/// value in it.
pub proof fn an_insert_keeps_names_different(level: Level, path: Seq<Seq<char>>, value: ValueV)
    requires
        names_differ(level),
    ensures
        names_differ(inserted(level, path, value)),
    decreases path.len(),
{
    if path.len() == 1 && !has_branch(level, path[0]) {
        placed_names_differ(level, path[0], EntryV::Leaf(value));
    } else if path.len() > 1 {
        let child = branch_at(level, path[0]);
        branch_names_differ(level, path[0]);
        an_insert_keeps_names_different(child, path.skip(1), value);
        placed_names_differ(
            level,
            path[0],
            EntryV::Branch(inserted(child, path.skip(1), value)),
        );
    }
}

proof fn placed_names_differ(level: Level, name: Seq<char>, entry: EntryV)
    requires
        names_differ(level),
        names_below_differ(entry),
    ensures
        names_differ(placed(level, name, entry)),
{
    let new = placed(level, name, entry);
    let before = names_of(level);
    let after = names_of(new);
    if before.contains(name) {
        assert(after =~= before);
    } else {
        assert(after =~= before.push(name));
        assert forall|i: int, j: int|
            0 <= i < after.len() && 0 <= j < after.len() && i != j implies after[i]
            != after[j] by {
            if i == before.len() {
                assert(before.contains(before[j]));
            }
            if j == before.len() {
                assert(before.contains(before[i]));
            }
        }
    }
    assert forall|i: int| 0 <= i < new.len() implies names_below_differ((#[trigger] new[i]).1) by {
        if new[i] != (name, entry) {
            assert(new[i] == level[i]);
        }
    }
}

/// A value that is put into a tree leaves what stands at every other path as it
/// is, apart from the paths above and below its own.
pub proof fn an_insert_leaves_other_paths(
    level: Level,
    path: Seq<Seq<char>>,
    value: ValueV,
    other: Seq<Seq<char>>,
)
    requires
        names_differ(level),
        !path.is_prefix_of(other),
        !other.is_prefix_of(path),
    ensures
        entry_of(inserted(level, path, value), other) == entry_of(level, other),
    decreases path.len(),
{
    if path.len() == 0 {
        assert(other.subrange(0, 0) =~= path);
    } else if other.len() == 0 {
        assert(path.subrange(0, 0) =~= other);
    } else if other[0] != path[0] {
        if path.len() == 1 {
            placed_is_found(level, path[0], EntryV::Leaf(value), other[0]);
        } else {
            let child = inserted(branch_at(level, path[0]), path.skip(1), value);
            placed_is_found(level, path[0], EntryV::Branch(child), other[0]);
        }
    } else {
        if path.len() == 1 {
            assert(other.subrange(0, 1) =~= path);
        }
        if other.len() == 1 {
            assert(path.subrange(0, 1) =~= other);
        }
        let rest = path.skip(1);
        let tail = other.skip(1);
        if rest.is_prefix_of(tail) {
            assert(other.subrange(0, path.len() as int) =~= path) by {
                assert forall|i: int| 0 <= i < path.len() implies other[i] == path[i] by {
                    if i > 0 {
                        assert(tail.subrange(0, rest.len() as int)[i - 1] == tail[i - 1]);
                        assert(rest[i - 1] == path[i]);
                    }
                }
            }
        }
        if tail.is_prefix_of(rest) {
            assert(path.subrange(0, other.len() as int) =~= other) by {
                assert forall|i: int| 0 <= i < other.len() implies path[i] == other[i] by {
                    if i > 0 {
                        assert(rest.subrange(0, tail.len() as int)[i - 1] == rest[i - 1]);
                        assert(tail[i - 1] == other[i]);
                    }
                }
            }
        }
        let child = branch_at(level, path[0]);
        branch_names_differ(level, path[0]);
        an_insert_leaves_other_paths(child, rest, value, tail);
        placed_is_found(level, path[0], EntryV::Branch(inserted(child, rest, value)), path[0]);
    }
}

proof fn found_in_the_table(level: Level, path: Seq<Seq<char>>)
    requires
        entry_of(level, path) is Some,
    ensures
        value_at(as_table(level), path) == Some(as_value(entry_of(level, path)->Some_0)),
    decreases path.len(),
{
    let entries = as_table(level);
    let names = Seq::new(entries.len(), |i: int| entries[i].0);
    assert(names =~= names_of(level));
    let i = names.index_of(path[0]);
    assert(entries[i] == (level[i].0, as_value(level[i].1)));
    if path.len() > 1 {
        found_in_the_table(level[i].1->Branch_0, path.skip(1));
    }
}

/// Every key of a written file reads as the value that stands at it.
pub proof fn every_key_reads_back(locale: Seq<char>, level: Level, path: Seq<Seq<char>>)
    requires
        level_as_loaded(level),
        entry_of(level, path) is Some,
    ensures
        value_at(document_read(emitted(locale, level)), seq![locale] + path) == Some(
            as_value(entry_of(level, path)->Some_0),
        ),
{
    a_written_file_reads_back(locale, level);
    found_in_the_table(level, path);
    let all = seq![locale] + path;
    let root = document_read(emitted(locale, level));
    let names = Seq::new(root.len(), |i: int| root[i].0);
    assert(names[0] == locale);
    assert(names.contains(locale));
    assert(root[names.index_of(locale)] == root[0]);
    assert(path.len() > 0);
    assert(all.skip(1) =~= path);
}

} // verus!
