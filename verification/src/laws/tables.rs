//! How reports are printed.
use crate::report::find::{key_lines, occurrence_lines, opaque_lines, pattern_lines};
use crate::report::{cell, column_width, column_widths, padded_cells};
use crate::init::render::{comment_of, wrapped};
use crate::scan::{byte_len, Occurrence, OccurrenceV};
use crate::text::{
    decimal, found_in_the_middle, has_text, is_space, middle_is_found, trim_end_of, word_end,
    words_of,
};
use crate::used::occurrences_at;
use vstd::prelude::*;

verus! {

proof fn a_column_fits(headers: Seq<Seq<char>>, rows: Seq<Seq<Seq<char>>>, n: int, i: int, r: int)
    requires
        0 <= n <= rows.len(),
        0 <= i < headers.len(),
    ensures
        ({
            let w = column_width(headers, rows, n, i);
            &&& headers[i].len() <= w
            &&& 0 <= r < n ==> cell(rows[r], i).len() <= w
            &&& w == headers[i].len() || exists|k: int|
                0 <= k < n && cell(#[trigger] rows[k], i).len() == w
        }),
    decreases n,
{
    if n > 0 {
        a_column_fits(headers, rows, n - 1, i, r);
    }
}

/// A column is as wide as its widest cell, its header included.
pub proof fn a_column_is_as_wide_as_its_widest_cell(
    headers: Seq<Seq<char>>,
    rows: Seq<Seq<Seq<char>>>,
    i: int,
    r: int,
)
    requires
        0 <= i < headers.len(),
    ensures
        ({
            let w = column_widths(headers, rows)[i];
            &&& headers[i].len() <= w
            &&& 0 <= r < rows.len() ==> cell(rows[r], i).len() <= w
            &&& w == headers[i].len() || exists|k: int|
                0 <= k < rows.len() && cell(#[trigger] rows[k], i).len() == w
        }),
{
    a_column_fits(headers, rows, rows.len() as int, i, r);
}

/// Where a column of a table starts: two characters behind the one before it.
pub open spec fn column_start(widths: Seq<int>, n: int) -> int
    decreases n,
{
    if n <= 0 {
        0
    } else {
        column_start(widths, n - 1) + widths[n - 1] + 2
    }
}

proof fn cells_fill_their_columns(row: Seq<Seq<char>>, widths: Seq<int>, n: int)
    requires
        0 <= n < widths.len(),
        forall|i: int| 0 <= i < widths.len() ==> cell(row, i).len() <= #[trigger] widths[i],
    ensures
        padded_cells(row, widths, n).len() == column_start(widths, n),
    decreases n,
{
    if n > 0 {
        cells_fill_their_columns(row, widths, n - 1);
        assert(cell(row, n - 1).len() <= widths[n - 1]);
    }
}

proof fn more_cells_stand_behind(row: Seq<Seq<char>>, widths: Seq<int>, n: int, m: int)
    requires
        0 <= n <= m,
    ensures
        padded_cells(row, widths, n).is_prefix_of(padded_cells(row, widths, m)),
    decreases m,
{
    let a = padded_cells(row, widths, n);
    let b = padded_cells(row, widths, m);
    if n < m {
        more_cells_stand_behind(row, widths, n, m - 1);
        let c = padded_cells(row, widths, m - 1);
        assert(c.subrange(0, a.len() as int) == a);
        assert(b.subrange(0, a.len() as int) =~= c.subrange(0, a.len() as int));
    } else {
        assert(b.subrange(0, a.len() as int) =~= a);
    }
}

/// The cells of a column start in the same place in every line.
pub proof fn columns_are_aligned(row: Seq<Seq<char>>, widths: Seq<int>, i: int)
    requires
        0 <= i < widths.len(),
        forall|k: int| 0 <= k < widths.len() ==> cell(row, k).len() <= #[trigger] widths[k],
    ensures
        ({
            let line = padded_cells(row, widths, widths.len() as int);
            let at = column_start(widths, i);
            &&& 0 <= at
            &&& at + cell(row, i).len() <= line.len()
            &&& line.subrange(at, at + cell(row, i).len()) == cell(row, i)
        }),
{
    let n = widths.len() as int;
    cells_fill_their_columns(row, widths, i);
    more_cells_stand_behind(row, widths, i + 1, n);
    let line = padded_cells(row, widths, n);
    let head = padded_cells(row, widths, i);
    let own = cell(row, i);
    let more = padded_cells(row, widths, i + 1);
    let at = column_start(widths, i);
    assert(head.len() == at);
    assert(line.subrange(0, more.len() as int) == more);
    assert forall|k: int| 0 <= k < own.len() implies line[at + k] == own[k] by {
        assert(more[at + k] == own[k]);
        assert(line.subrange(0, more.len() as int)[at + k] == line[at + k]);
    }
    assert(line.subrange(at, at + own.len()) =~= own);
}

// ------------------------------------------------------------------------ what is used

proof fn one_of_the_lines(v: Seq<OccurrenceV>, n: int, i: int)
    requires
        0 <= i < n <= v.len(),
    ensures
        has_text(
            occurrence_lines(v, n),
            v[i].path + ":"@ + decimal(v[i].line_num as nat) + ":"@ + decimal(
                v[i].line_pos as nat,
            ),
        ),
    decreases n,
{
    let place = v[i].path + ":"@ + decimal(v[i].line_num as nat) + ":"@ + decimal(
        v[i].line_pos as nat,
    );
    let before = occurrence_lines(v, n - 1);
    let none = Seq::<char>::empty();
    if i == n - 1 {
        middle_is_found(before + "  "@, place, "\n"@);
        assert(before + "  "@ + place + "\n"@ =~= occurrence_lines(v, n));
    } else {
        one_of_the_lines(v, n - 1, i);
        let tail = "  "@ + v[n - 1].path + ":"@ + decimal(v[n - 1].line_num as nat) + ":"@
            + decimal(v[n - 1].line_pos as nat) + "\n"@;
        found_in_the_middle(none, before, tail, place);
        assert(none + before + tail =~= occurrence_lines(v, n));
    }
}

/// Every use of a key is listed under it, with its file, line and column.
pub proof fn every_use_is_listed(
    order: Seq<Seq<char>>,
    keys: Map<Seq<char>, Vec<Occurrence>>,
    n: int,
    k: int,
    i: int,
)
    requires
        0 <= k < n <= order.len(),
        0 <= i < occurrences_at(keys, order[k]).len(),
    ensures
        ({
            let occ = occurrences_at(keys, order[k])[i];
            &&& has_text(key_lines(order, keys, n), order[k] + "\n"@)
            &&& has_text(
                key_lines(order, keys, n),
                occ.path + ":"@ + decimal(occ.line_num as nat) + ":"@ + decimal(
                    occ.line_pos as nat,
                ),
            )
        }),
    decreases n,
{
    let occ = occurrences_at(keys, order[k])[i];
    let place = occ.path + ":"@ + decimal(occ.line_num as nat) + ":"@ + decimal(
        occ.line_pos as nat,
    );
    let before = key_lines(order, keys, n - 1);
    let last = occurrences_at(keys, order[n - 1]);
    let lines = occurrence_lines(last, last.len() as int);
    let none = Seq::<char>::empty();
    if k == n - 1 {
        one_of_the_lines(last, last.len() as int, i);
        middle_is_found(before, order[k] + "\n"@, lines);
        assert(before + (order[k] + "\n"@) + lines =~= key_lines(order, keys, n));
        let front = before + order[k] + "\n"@;
        found_in_the_middle(front, lines, none, place);
        assert(front + lines + none =~= key_lines(order, keys, n));
    } else {
        every_use_is_listed(order, keys, n - 1, k, i);
        let tail = order[n - 1] + "\n"@ + lines;
        found_in_the_middle(none, before, tail, place);
        found_in_the_middle(none, before, tail, order[k] + "\n"@);
        assert(none + before + tail =~= key_lines(order, keys, n));
    }
}

/// Every pattern and every call with an unknown key is listed, with its place.
pub proof fn every_pattern_and_unknown_call_is_listed(
    patterns: Seq<(Seq<char>, OccurrenceV)>,
    n: int,
    i: int,
    opaque: Seq<OccurrenceV>,
    m: int,
    j: int,
)
    requires
        0 <= n <= patterns.len(),
        0 <= m <= opaque.len(),
    ensures
        0 <= i < n ==> has_text(
            pattern_lines(patterns, n),
            patterns[i].0 + "  (pattern)\n  "@ + patterns[i].1.path + ":"@ + decimal(
                patterns[i].1.line_num as nat,
            ),
        ),
        0 <= j < m ==> has_text(
            opaque_lines(opaque, m),
            opaque[j].path + ":"@ + decimal(opaque[j].line_num as nat),
        ),
    decreases n + m,
{
    let none = Seq::<char>::empty();
    if 0 <= i < n {
        let text = patterns[i].0 + "  (pattern)\n  "@ + patterns[i].1.path + ":"@ + decimal(
            patterns[i].1.line_num as nat,
        );
        let before = pattern_lines(patterns, n - 1);
        if i == n - 1 {
            middle_is_found(before, text, "\n"@);
            assert(before + text + "\n"@ =~= pattern_lines(patterns, n));
        } else {
            every_pattern_and_unknown_call_is_listed(patterns, n - 1, i, opaque, m, j);
            let tail = patterns[n - 1].0 + "  (pattern)\n  "@ + patterns[n - 1].1.path + ":"@
                + decimal(patterns[n - 1].1.line_num as nat) + "\n"@;
            found_in_the_middle(none, before, tail, text);
            assert(none + before + tail =~= pattern_lines(patterns, n));
        }
    }
    if 0 <= j < m {
        let text = opaque[j].path + ":"@ + decimal(opaque[j].line_num as nat);
        let before = opaque_lines(opaque, m - 1);
        if j == m - 1 {
            middle_is_found(before + "(opaque)  "@, text, "\n"@);
            assert(before + "(opaque)  "@ + text + "\n"@ =~= opaque_lines(opaque, m));
        } else {
            every_pattern_and_unknown_call_is_listed(patterns, n, i, opaque, m - 1, j);
            let tail = "(opaque)  "@ + opaque[m - 1].path + ":"@ + decimal(
                opaque[m - 1].line_num as nat,
            ) + "\n"@;
            found_in_the_middle(none, before, tail, text);
            assert(none + before + tail =~= opaque_lines(opaque, m));
        }
    }
}

// ---------------------------------------------------------------------------- notes

/// A word: not empty, and without white space at its end.
spec fn is_word(s: Seq<char>) -> bool {
    s.len() > 0 && !is_space(s.last())
}

proof fn a_word_has_no_space(s: Seq<char>)
    requires
        s.len() > 0,
        !is_space(s[0]),
    ensures
        0 < word_end(s) <= s.len(),
        !is_space(s[word_end(s) - 1]),
    decreases s.len(),
{
    let rest = s.skip(1);
    if rest.len() > 0 && !is_space(rest[0]) {
        a_word_has_no_space(rest);
        assert(rest[word_end(rest) - 1] == s[word_end(rest)]);
    } else {
        assert(word_end(rest) == 0);
    }
}

proof fn words_are_words(s: Seq<char>)
    ensures
        forall|i: int| 0 <= i < words_of(s).len() ==> is_word(#[trigger] words_of(s)[i]),
    decreases s.len(),
{
    if s.len() > 0 {
        if is_space(s[0]) {
            words_are_words(s.skip(1));
            assert(words_of(s) == words_of(s.skip(1)));
        } else {
            a_word_has_no_space(s);
            let n = word_end(s);
            let rest = words_of(s.skip(n));
            words_are_words(s.skip(n));
            let all = words_of(s);
            assert(all == seq![s.take(n)] + rest);
            assert forall|i: int| 0 <= i < all.len() implies is_word(#[trigger] all[i]) by {
                if i == 0 {
                    assert(s.take(n).last() == s[n - 1]);
                } else {
                    assert(all[i] == rest[i - 1]);
                }
            }
        }
    } else {
        assert(words_of(s).len() == 0);
    }
}

proof fn one_space_is_trimmed(y: Seq<char>)
    requires
        is_word(y),
    ensures
        trim_end_of(y + " "@) == y,
{
    reveal_strlit(" ");
    let s = y + " "@;
    assert(s[s.len() - 1] == ' ');
    assert(s.subrange(0, s.len() - 1) =~= y);
    assert(trim_end_of(y) == y);
}

/// The line that is being filled, without the blank at its end.
spec fn filled_line(words: Seq<Seq<char>>, n: int) -> Seq<char> {
    wrapped(words, n).line.drop_last()
}

proof fn a_word_is_in_a_line(words: Seq<Seq<char>>, n: int, k: int)
    requires
        0 <= k < n <= words.len(),
        forall|i: int| 0 <= i < words.len() ==> is_word(#[trigger] words[i]),
    ensures
        wrapped(words, n).line == filled_line(words, n) + " "@,
        is_word(filled_line(words, n)),
        has_text(wrapped(words, n).done, words[k]) || has_text(filled_line(words, n), words[k]),
    decreases n,
{
    reveal_strlit(" ");
    reveal_strlit("\n");
    let none = Seq::<char>::empty();
    let before = wrapped(words, n - 1);
    let now = wrapped(words, n);
    let word = words[n - 1];
    assert(is_word(word));
    let wraps = byte_len(before.line) + 1 + byte_len(word) > 79 && byte_len(before.line) > 4;
    let front = if wraps {
        "#     "@
    } else {
        before.line
    };
    assert(now.line =~= front + word + " "@);
    assert(filled_line(words, n) =~= front + word);
    assert(filled_line(words, n).last() == word.last());
    if k == n - 1 {
        middle_is_found(front, word, none);
        assert(front + word + none =~= front + word);
    } else {
        a_word_is_in_a_line(words, n - 1, k);
        let line = filled_line(words, n - 1);
        one_space_is_trimmed(line);
        if has_text(before.done, words[k]) {
            let tail = if wraps {
                line + "\n"@
            } else {
                none
            };
            found_in_the_middle(none, before.done, tail, words[k]);
            assert(none + before.done + tail =~= now.done);
        } else if wraps {
            found_in_the_middle(before.done, line, "\n"@, words[k]);
            assert(before.done + line + "\n"@ =~= now.done);
        } else {
            let tail = " "@ + word;
            found_in_the_middle(none, line, tail, words[k]);
            assert(none + line + tail =~= front + word);
        }
    }
}

/// Every word of a note is printed, wherever its lines are broken.
pub proof fn every_word_of_a_note_is_printed(note: Seq<char>, k: int)
    requires
        0 <= k < words_of(note).len(),
    ensures
        has_text(comment_of(note), words_of(note)[k]),
{
    let words = words_of(note);
    let n = words.len() as int;
    words_are_words(note);
    a_word_is_in_a_line(words, n, k);
    let w = wrapped(words, n);
    let line = filled_line(words, n);
    one_space_is_trimmed(line);
    let none = Seq::<char>::empty();
    if has_text(w.done, words[k]) {
        let tail = line + "\n"@;
        found_in_the_middle(none, w.done, tail, words[k]);
        assert(none + w.done + tail =~= comment_of(note));
    } else {
        found_in_the_middle(w.done, line, "\n"@, words[k]);
    }
}

} // verus!
