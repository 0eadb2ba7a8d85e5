//! How values are written.
use crate::data::emit::scalar::{
    block_line, block_lines, deeper, doubled, escape, escaped, is_block_safe, needs_escapes_of,
    one_line, opens_with_indicator, scalar_text, style, without_breaks, Style,
};
use crate::data::load::ValueV;
use crate::laws::loading::names_are_split_again;
use crate::text::{has_text, is_alphanumeric_of, is_control, join_of};
use crate::yaml::{resolved, Resolved};
use vstd::prelude::*;

verus! {

/// A reader may take the plain text for a mapping or a comment, or drop its end.
pub open spec fn reads_as_more(s: Seq<char>) -> bool {
    ||| s.last() == ' '
    ||| s.last() == ':'
    ||| has_text(s, ": "@)
    ||| has_text(s, " #"@)
}

/// A reader may take the plain text for something other than a string.
pub open spec fn reads_as_other(s: Seq<char>) -> bool {
    ||| resolved(s) != Resolved::Str
    ||| s == "y"@
    ||| s == "Y"@
    ||| s == "n"@
    ||| s == "N"@
    ||| s == "<<"@
    ||| s == "="@
}

proof fn endings(s: Seq<char>)
    requires
        s.len() > 0,
    ensures
        " "@.is_suffix_of(s) <==> s.last() == ' ',
        ":"@.is_suffix_of(s) <==> s.last() == ':',
{
    reveal_strlit(" ");
    reveal_strlit(":");
    let n = s.len() as int;
    let end = s.subrange(n - 1, n);
    assert(end[0] == s.last());
    if s.last() == ' ' {
        assert(end =~= " "@);
    }
    if s.last() == ':' {
        assert(end =~= ":"@);
    }
}

proof fn words_are_no_indicators(s: Seq<char>)
    requires
        s.len() > 0,
        opens_with_indicator(s),
    ensures
        !('a' <= s[0] <= 'z') && !('A' <= s[0] <= 'Z') && !('0' <= s[0] <= '9') && s[0] != '_',
{
    reveal_strlit("-?:,[]{}#&*!|>'\"%@`");
    let all = "-?:,[]{}#&*!|>'\"%@`"@;
    if all.contains(s[0]) {
        let k = all.index_of(s[0]);
        assert(all[k] == s[0]);
    }
}

/// A text that opens with a letter or a digit is written as it is, unless a
/// reader would take it for something else; it is put in single quotes then.
pub proof fn a_word_is_written_as_it_is(s: Seq<char>)
    requires
        s.len() > 0,
        ('a' <= s[0] <= 'z') || ('A' <= s[0] <= 'Z') || ('0' <= s[0] <= '9'),
        is_alphanumeric_of(s[0]),
        !needs_escapes_of(s),
    ensures
        !reads_as_more(s) && !reads_as_other(s) ==> one_line(s) == s,
        (reads_as_more(s) || reads_as_other(s)) && !s.contains('\'') ==> one_line(s) == seq!['\'']
            + s + seq!['\''],
{
    reveal_strlit("'");
    endings(s);
    if opens_with_indicator(s) {
        words_are_no_indicators(s);
    }
    if !s.contains('\'') {
        nothing_is_doubled(s);
    }
    assert("'"@ =~= seq!['\'']);
}

proof fn nothing_is_doubled(s: Seq<char>)
    requires
        !s.contains('\''),
    ensures
        doubled(s) == s,
    decreases s.len(),
{
    if s.len() > 0 {
        let head = s.drop_last();
        assert(s.contains(s.last()));
        if head.contains('\'') {
            assert(s[head.index_of('\'')] == '\'');
        }
        nothing_is_doubled(head);
        assert(head.push(s.last()) =~= s);
    } else {
        assert(doubled(s) =~= s);
    }
}

/// A quote in single quotes is written twice.
pub proof fn a_single_quote_is_doubled(a: Seq<char>, b: Seq<char>)
    requires
        !b.contains('\''),
    ensures
        doubled(a + seq!['\''] + b) == doubled(a) + seq!['\'', '\''] + b,
    decreases b.len(),
{
    reveal_strlit("''");
    let s = a + seq!['\''] + b;
    if b.len() == 0 {
        assert(s.drop_last() =~= a);
        assert("''"@ =~= seq!['\'', '\'']);
        assert(doubled(s) =~= doubled(a) + seq!['\'', '\''] + b);
    } else {
        let less = b.drop_last();
        assert(b.contains(b.last()));
        if less.contains('\'') {
            assert(b[less.index_of('\'')] == '\'');
        }
        a_single_quote_is_doubled(a, less);
        assert(s.drop_last() =~= a + seq!['\''] + less);
        assert(s.last() == b.last());
        assert(doubled(s) =~= doubled(a) + seq!['\'', '\''] + b);
    }
}

/// A character that double quotes do not escape.
pub open spec fn stands_for_itself(c: char) -> bool {
    c != '"' && c != '\\' && c != '\n' && c != '\r' && c != '\t' && !is_control(c)
}

proof fn nothing_is_escaped(s: Seq<char>)
    requires
        forall|i: int| 0 <= i < s.len() ==> stands_for_itself(#[trigger] s[i]),
    ensures
        escaped(s) == s,
    decreases s.len(),
{
    if s.len() > 0 {
        let head = s.drop_last();
        assert(stands_for_itself(s[s.len() - 1]));
        assert forall|i: int| 0 <= i < head.len() implies stands_for_itself(#[trigger] head[i]) by {
            assert(head[i] == s[i]);
        }
        nothing_is_escaped(head);
        assert(escaped(s) =~= s);
    } else {
        assert(escaped(s) =~= s);
    }
}

/// A text that opens with anything else is put in double quotes, unless it holds
/// a double quote itself.
pub proof fn a_text_without_a_word_is_put_in_double_quotes(s: Seq<char>)
    requires
        s.len() > 0,
        !is_alphanumeric_of(s[0]) && s[0] != '_',
        forall|i: int| 0 <= i < s.len() ==> stands_for_itself(#[trigger] s[i]),
    ensures
        one_line(s) == seq!['"'] + s + seq!['"'],
{
    reveal_strlit("\"");
    if s.contains('"') {
        let k = s.index_of('"');
        assert(stands_for_itself(s[k]));
    }
    nothing_is_escaped(s);
    assert("\""@ =~= seq!['"']);
    assert(style(s) == Style::Double);
}

/// How the characters that need it are escaped in double quotes.
pub proof fn how_a_character_is_escaped(a: Seq<char>, c: char)
    ensures
        escaped(a.push('"')) == escaped(a) + seq!['\\', '"'],
        escaped(a.push('\\')) == escaped(a) + seq!['\\', '\\'],
        escaped(a.push('\n')) == escaped(a) + seq!['\\', 'n'],
        escaped(a.push('\r')) == escaped(a) + seq!['\\', 'r'],
        escaped(a.push('\t')) == escaped(a) + seq!['\\', 't'],
        stands_for_itself(c) ==> escaped(a.push(c)) == escaped(a) + seq![c],
{
    reveal_strlit("\\\"");
    reveal_strlit("\\\\");
    reveal_strlit("\\n");
    reveal_strlit("\\r");
    reveal_strlit("\\t");
    assert(a.push('"').drop_last() =~= a);
    assert(a.push('\\').drop_last() =~= a);
    assert(a.push('\n').drop_last() =~= a);
    assert(a.push('\r').drop_last() =~= a);
    assert(a.push('\t').drop_last() =~= a);
    assert(a.push(c).drop_last() =~= a);
    assert(escape('"') =~= seq!['\\', '"']);
    assert(escape('\\') =~= seq!['\\', '\\']);
    assert(escape('\n') =~= seq!['\\', 'n']);
    assert(escape('\r') =~= seq!['\\', 'r']);
    assert(escape('\t') =~= seq!['\\', 't']);
}

// -------------------------------------------------------------------------- blocks

/// A line that a block can hold.
pub open spec fn fits_block(line: Seq<char>) -> bool {
    line.len() > 0 && line[0] != ' ' && line.last() != ' ' && !line.contains('\n')
        && !needs_escapes_of(line)
}

/// Lines below a header, each behind the indentation.
pub open spec fn below(lines: Seq<Seq<char>>, n: int, pad: Seq<char>) -> Seq<char>
    decreases n,
{
    if n <= 0 {
        Seq::empty()
    } else {
        below(lines, n - 1, pad) + seq!['\n'] + pad + lines[n - 1]
    }
}

proof fn lines_stand_below(lines: Seq<Seq<char>>, more: Seq<Seq<char>>, n: int, pad: Seq<char>)
    requires
        0 <= n <= lines.len() <= more.len(),
        forall|i: int| 0 <= i < lines.len() ==> fits_block(#[trigger] lines[i]),
        forall|i: int| 0 <= i < lines.len() ==> more[i] == #[trigger] lines[i],
    ensures
        block_lines(more, n, pad) == below(lines, n, pad),
    decreases n,
{
    reveal_strlit("\n");
    if n > 0 {
        lines_stand_below(lines, more, n - 1, pad);
        assert(fits_block(lines[n - 1]));
        assert(more[n - 1] == lines[n - 1]);
        assert("\n"@ =~= seq!['\n']);
    }
}

proof fn joined_lines_end(lines: Seq<Seq<char>>)
    requires
        lines.len() > 0,
        forall|i: int| 0 <= i < lines.len() ==> fits_block(#[trigger] lines[i]),
    ensures
        join_of(lines, "\n"@).len() > 0,
        join_of(lines, "\n"@).last() == lines.last().last(),
        join_of(lines, "\n"@).last() != '\n',
        lines.len() > 1 ==> join_of(lines, "\n"@).contains('\n'),
{
    reveal_strlit("\n");
    let last = lines[lines.len() - 1];
    assert(fits_block(last));
    assert(last.contains(last.last()));
    if lines.len() > 1 {
        let front = join_of(lines.drop_last(), "\n"@);
        let all = join_of(lines, "\n"@);
        assert(all == front + "\n"@ + lines.last());
        assert(all[front.len() as int] == '\n');
    }
}

/// A text of several lines is written as a block: with `|-` where it ends in no
/// line break, with `|` where it ends in one, and each line below, one level
/// deeper.
pub proof fn lines_are_written_as_a_block(lines: Seq<Seq<char>>, pad: Seq<char>)
    requires
        lines.len() > 0,
        forall|i: int| 0 <= i < lines.len() ==> fits_block(#[trigger] lines[i]),
    ensures
        lines.len() > 1 ==> scalar_text(ValueV::Str(join_of(lines, "\n"@)), pad) == seq!['|', '-']
            + below(lines, lines.len() as int, pad + seq![' ', ' ']),
        scalar_text(ValueV::Str(join_of(lines, "\n"@) + seq!['\n']), pad) == seq!['|'] + below(
            lines,
            lines.len() as int,
            pad + seq![' ', ' '],
        ),
{
    reveal_strlit("\n");
    reveal_strlit("|-");
    reveal_strlit("|");
    reveal_strlit("  ");
    let nl = "\n"@;
    let n = lines.len() as int;
    let one = join_of(lines, nl);
    let two = one + seq!['\n'];
    let inner = deeper(pad);
    assert(inner =~= pad + seq![' ', ' ']);
    assert(nl =~= seq!['\n']);
    joined_lines_end(lines);
    assert forall|i: int| 0 <= i < lines.len() implies !(#[trigger] lines[i]).contains('\n') by {
        assert(fits_block(lines[i]));
    }
    names_are_split_again(lines, nl, '\n');
    assert(without_breaks(one) == one);
    assert(two.drop_last() =~= one);
    assert(without_breaks(two) == one);
    assert forall|i: int| 0 <= i < lines.len() implies block_line(#[trigger] lines[i]) by {
        assert(fits_block(lines[i]));
        endings(lines[i]);
    }
    assert(fits_block(lines[0]));
    // Without a line break at the end.
    lines_stand_below(lines, lines, n, inner);
    if lines.len() > 1 {
        assert(is_block_safe(one));
        assert("|-"@ =~= seq!['|', '-']);
    }
    // With one.
    assert(two.contains('\n')) by {
        assert(two[one.len() as int] == '\n');
    }
    assert(is_block_safe(two));
    let none = Seq::<char>::empty();
    let more = lines.push(none);
    assert(more.drop_last() =~= lines);
    assert(join_of(more, nl) =~= two);
    assert forall|i: int| 0 <= i < more.len() implies !(#[trigger] more[i]).contains('\n') by {
        if i < n {
            assert(more[i] == lines[i]);
        }
    }
    names_are_split_again(more, nl, '\n');
    lines_stand_below(lines, more, n, inner);
    assert("|"@ =~= seq!['|']);
}

} // verus!
