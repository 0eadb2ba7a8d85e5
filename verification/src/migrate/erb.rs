//! Removing the ERB.
//!
//! A config that holds ERB is evaluated as code by its usual reader. Nothing
//! here evaluates anything: a tag is cut out, and a line whose value was
//! computed by one is reported for a human instead.
use crate::lineindex::numbers;
use crate::migrate::lines::{comment, is_comment};
use crate::migrate::{manual_model, Manual, ManualV};
use crate::text::{
    bare_line, bare_lines, chars_of, contains, find_from, find_from_of, find_is_first, has_text,
    lines_of, occurs_at, plain_lines, position_is_first, position_of, text_between, texts, trim,
    trim_of,
};
use vstd::prelude::*;

verus! {

/// A source without its ERB.
pub struct Stripped {
    /// The source with every ERB line blanked, so that line numbers still match.
    pub text: String,
    /// The lines that held nothing but ERB.
    pub erb_lines: Vec<usize>,
    pub manual: Vec<Manual>,
}

/// What a [`Stripped`] holds, and whether a tag is still open.
pub struct StrippedV {
    pub text: Seq<char>,
    pub erb_lines: Seq<int>,
    pub manual: Seq<ManualV>,
    pub open: bool,
}

impl Stripped {
    /// What the source holds, where `open` says whether a tag is open.
    pub open spec fn model(self, open: bool) -> StrippedV {
        StrippedV {
            text: self.text@,
            erb_lines: numbers(self.erb_lines@),
            manual: manual_model(self.manual@),
            open,
        }
    }
}

/// What is left of a line from `i` on once every tag is cut out, and whether
/// the last tag is still open at its end.
pub open spec fn cut_from(s: Seq<char>, i: int) -> (Seq<char>, bool)
    decreases s.len() - i,
{
    match find_from_of(s, "<%"@, i) {
        None => (s.skip(i), false),
        Some(p) => match find_from_of(s, "%>"@, p) {
            None => (s.subrange(i, p), true),
            Some(e) => if i <= p <= e && e + 2 <= s.len() {
                let (rest, open) = cut_from(s, e + 2);
                (s.subrange(i, p) + rest, open)
            } else {
                (Seq::empty(), true)
            },
        },
    }
}

/// What is left of a line that holds ERB, and whether a tag is open at its end.
/// `open` says whether one is open at its start.
pub open spec fn cut_line(raw: Seq<char>, open: bool) -> Option<(Seq<char>, bool)> {
    if open {
        match find_from_of(raw, "%>"@, 0) {
            None => Some((Seq::empty(), true)),
            Some(p) => Some(cut_from(raw, p + 2)),
        }
    } else if has_text(raw, "<%"@) {
        Some(cut_from(raw, 0))
    } else {
        None
    }
}

/// The first `n` lines without their ERB.
pub open spec fn stripped_upto(lines: Seq<Seq<char>>, n: int) -> StrippedV
    decreases n,
{
    if n <= 0 {
        StrippedV {
            text: Seq::empty(),
            erb_lines: Seq::empty(),
            manual: Seq::empty(),
            open: false,
        }
    } else {
        let before = stripped_upto(lines, n - 1);
        let raw = lines[n - 1];
        match cut_line(raw, before.open) {
            None => StrippedV { text: before.text + raw + "\n"@, ..before },
            Some((kept, open)) => StrippedV {
                text: before.text + "\n"@,
                erb_lines: if trim_of(kept).len() == 0 {
                    before.erb_lines.push(n)
                } else {
                    before.erb_lines
                },
                manual: if trim_of(kept).len() > 0 && !is_comment(raw) {
                    before.manual.push(ManualV { line: n, text: trim_of(raw) })
                } else {
                    before.manual
                },
                open,
            },
        }
    }
}

/// A source without its ERB.
pub open spec fn stripped_of(src: Seq<char>) -> StrippedV {
    stripped_upto(bare_lines(src), bare_lines(src).len() as int)
}

fn cut(v: &Vec<char>, from: usize) -> (r: (String, bool))
    requires
        from <= v.len(),
    ensures
        (r.0@, r.1) == cut_from(v@, from as int),
{
    let opening = chars_of("<%");
    let closing = chars_of("%>");
    proof {
        reveal_strlit("<%");
        reveal_strlit("%>");
    }
    let mut kept = String::new();
    let mut i: usize = from;
    assert((kept@ + cut_from(v@, from as int).0, cut_from(v@, from as int).1) == cut_from(
        v@,
        from as int,
    )) by {
        assert(kept@ + cut_from(v@, from as int).0 =~= cut_from(v@, from as int).0);
    }
    loop
        invariant
            from <= i <= v.len(),
            opening@ == "<%"@,
            closing@ == "%>"@,
            closing.len() == 2,
            (kept@ + cut_from(v@, i as int).0, cut_from(v@, i as int).1) == cut_from(
                v@,
                from as int,
            ),
        decreases v.len() - i,
    {
        let ghost before = kept@;
        match find_from(v, &opening, i) {
            None => {
                kept.append(&text_between(v, i, v.len()));
                assert(v@.subrange(i as int, v.len() as int) =~= v@.skip(i as int));
                return (kept, false);
            },
            Some(p) => {
                kept.append(&text_between(v, i, p));
                match find_from(v, &closing, p) {
                    None => {
                        return (kept, true);
                    },
                    Some(e) => {
                        assert(kept@ + cut_from(v@, e + 2).0 =~= before + (v@.subrange(
                            i as int,
                            p as int,
                        ) + cut_from(v@, e + 2).0));
                        i = e + 2;
                    },
                }
            },
        }
    }
}

fn cut_one(raw: &str, open: bool) -> (r: Option<(String, bool)>)
    ensures
        cut_line(raw@, open) == match r {
            Some((kept, open)) => Some((kept@, open)),
            None => None,
        },
{
    let v = chars_of(raw);
    if open {
        proof {
            reveal_strlit("%>");
        }
        match find_from(&v, &chars_of("%>"), 0) {
            None => {
                let kept = String::new();
                assert(kept@ =~= Seq::empty());
                Some((kept, true))
            },
            Some(p) => {
                let length = v.len();
                assert(p + 2 <= length);
                Some(cut(&v, p + 2))
            },
        }
    } else if contains(raw, "<%") {
        Some(cut(&v, 0))
    } else {
        None
    }
}

/// Removes the ERB, one line at a time.
///
/// A line that held nothing but a tag is blanked. A line that mixed ERB into a
/// value is blanked and reported, because the value was computed by code. A
/// comment that held ERB goes without a report.
pub fn strip_erb(src: &str) -> (r: Stripped)
    ensures
        r.text@ == stripped_of(src@).text,
        numbers(r.erb_lines@) == stripped_of(src@).erb_lines,
        manual_model(r.manual@) == stripped_of(src@).manual,
{
    let lines = plain_lines(src);
    let ghost model = bare_lines(src@);
    assert(model.len() == lines.len());
    let mut out = Stripped { text: String::new(), erb_lines: Vec::new(), manual: Vec::new() };
    let mut open = false;
    let mut i: usize = 0;
    assert(out.text@ =~= Seq::empty());
    assert(numbers(out.erb_lines@) =~= Seq::empty());
    assert(manual_model(out.manual@) =~= Seq::empty());
    while i < lines.len()
        invariant
            i <= lines.len(),
            model == texts(lines@),
            out.model(open) == stripped_upto(model, i as int),
        decreases lines.len() - i,
    {
        let raw = &lines[i];
        assert(model[i as int] == raw@);
        match cut_one(raw, open) {
            None => {
                out.text.append(raw);
                out.text.append("\n");
            },
            Some((kept, still_open)) => {
                let ghost listed = numbers(out.erb_lines@);
                let ghost reported = manual_model(out.manual@);
                out.text.append("\n");
                let rest = trim(&kept);
                if rest.as_str().is_empty() {
                    out.erb_lines.push(i + 1);
                    assert(numbers(out.erb_lines@) =~= listed.push(i + 1));
                } else if !comment(raw) {
                    let line = Manual { line: i + 1, text: trim(raw) };
                    out.manual.push(line);
                    assert(manual_model(out.manual@) =~= reported.push(line@));
                }
                open = still_open;
            },
        }
        i = i + 1;
    }
    out
}

/// A text from `i` on with `[ERB]` in place of every tag.
pub open spec fn redacted_from(s: Seq<char>, i: int) -> Seq<char>
    decreases s.len() - i,
{
    match find_from_of(s, "<%"@, i) {
        None => s.skip(i),
        Some(p) => match find_from_of(s, "%>"@, p) {
            None => s.subrange(i, p) + "[ERB]"@,
            Some(e) => if i <= p <= e && e + 2 <= s.len() {
                s.subrange(i, p) + "[ERB]"@ + redacted_from(s, e + 2)
            } else {
                Seq::empty()
            },
        },
    }
}

/// Puts `[ERB]` in place of every tag, so that the line can be quoted in a
/// config file.
pub fn redact_erb(text: &str) -> (out: String)
    ensures
        out@ == redacted_from(text@, 0),
{
    let v = chars_of(text);
    let opening = chars_of("<%");
    let closing = chars_of("%>");
    proof {
        reveal_strlit("<%");
        reveal_strlit("%>");
    }
    let mut out = String::new();
    let mut i: usize = 0;
    assert(out@ + redacted_from(v@, 0) =~= redacted_from(v@, 0));
    loop
        invariant
            i <= v.len(),
            v@ == text@,
            opening@ == "<%"@,
            closing@ == "%>"@,
            closing.len() == 2,
            out@ + redacted_from(v@, i as int) == redacted_from(v@, 0),
        decreases v.len() - i,
    {
        let ghost before = out@;
        match find_from(&v, &opening, i) {
            None => {
                out.append(&text_between(&v, i, v.len()));
                assert(v@.subrange(i as int, v.len() as int) =~= v@.skip(i as int));
                return out;
            },
            Some(p) => {
                out.append(&text_between(&v, i, p));
                out.append("[ERB]");
                match find_from(&v, &closing, p) {
                    None => {
                        assert(out@ =~= before + redacted_from(v@, i as int));
                        return out;
                    },
                    Some(e) => {
                        assert(out@ + redacted_from(v@, e + 2) =~= before + redacted_from(
                            v@,
                            i as int,
                        ));
                        i = e + 2;
                    },
                }
            },
        }
    }
}

// -------------------------------------------------------------------------- laws

/// `<%` stands in a text where its two characters stand in a row.
proof fn tag_is_two_characters(s: Seq<char>)
    ensures
        has_text(s, "<%"@) <==> exists|i: int|
            0 <= i < s.len() - 1 && #[trigger] s[i] == '<' && s[i + 1] == '%',
{
    reveal_strlit("<%");
    find_is_first(s, "<%"@, 0);
    if has_text(s, "<%"@) {
        let i = find_from_of(s, "<%"@, 0)->Some_0;
        assert(s.subrange(i, i + 2)[0] == s[i]);
        assert(s.subrange(i, i + 2)[1] == s[i + 1]);
    }
    if exists|i: int| 0 <= i < s.len() - 1 && #[trigger] s[i] == '<' && s[i + 1] == '%' {
        let i = choose|i: int| 0 <= i < s.len() - 1 && #[trigger] s[i] == '<' && s[i + 1] == '%';
        assert(s.subrange(i, i + 2) =~= "<%"@);
        assert(occurs_at(s, "<%"@, i));
    }
}

/// No tag is left in what [`strip_erb`] makes of a source.
pub proof fn a_stripped_source_holds_no_tag(src: Seq<char>)
    ensures
        !has_text(stripped_of(src).text, "<%"@),
{
    let lines = bare_lines(src);
    no_tag_upto(lines, lines.len() as int);
}

proof fn no_tag_upto(lines: Seq<Seq<char>>, n: int)
    requires
        0 <= n <= lines.len(),
    ensures
        !has_text(stripped_upto(lines, n).text, "<%"@),
        n > 0 ==> stripped_upto(lines, n).text.len() > 0 && stripped_upto(lines, n).text.last()
            == '\n',
        n == 0 ==> stripped_upto(lines, n).text.len() == 0,
    decreases n,
{
    let now = stripped_upto(lines, n).text;
    tag_is_two_characters(now);
    if n > 0 {
        no_tag_upto(lines, n - 1);
        reveal_strlit("\n");
        let before = stripped_upto(lines, n - 1);
        let raw = lines[n - 1];
        tag_is_two_characters(before.text);
        tag_is_two_characters(raw);
        if has_text(now, "<%"@) {
            let i = choose|i: int|
                0 <= i < now.len() - 1 && #[trigger] now[i] == '<' && now[i + 1] == '%';
            if i < before.text.len() {
                assert(before.text[i] == '<');
                assert(before.text[i + 1] == '%');
            } else {
                assert(cut_line(raw, before.open) is None);
                assert(raw[i - before.text.len()] == '<');
                assert(raw[i - before.text.len() + 1] == '%');
            }
        }
    }
}

/// No tag is left in what [`redact_erb`] makes of a text.
pub proof fn a_redacted_text_holds_no_tag(s: Seq<char>)
    ensures
        !has_text(redacted_from(s, 0), "<%"@),
{
    no_tag_from(s, 0);
}

proof fn no_tag_from(s: Seq<char>, i: int)
    requires
        0 <= i <= s.len(),
    ensures
        !has_text(redacted_from(s, i), "<%"@),
    decreases s.len() - i,
{
    let out = redacted_from(s, i);
    reveal_strlit("<%");
    reveal_strlit("%>");
    reveal_strlit("[ERB]");
    find_is_first(s, "<%"@, i);
    tag_is_two_characters(out);
    match find_from_of(s, "<%"@, i) {
        None => {
            if has_text(out, "<%"@) {
                let k = choose|k: int|
                    0 <= k < out.len() - 1 && #[trigger] out[k] == '<' && out[k + 1] == '%';
                assert(s.subrange(i + k, i + k + 2) =~= "<%"@);
                assert(occurs_at(s, "<%"@, i + k));
            }
        },
        Some(p) => {
            find_is_first(s, "%>"@, p);
            let head = s.subrange(i, p) + "[ERB]"@;
            let rest = match find_from_of(s, "%>"@, p) {
                None => Seq::empty(),
                Some(e) => redacted_from(s, e + 2),
            };
            if let Some(e) = find_from_of(s, "%>"@, p) {
                no_tag_from(s, e + 2);
                tag_is_two_characters(rest);
            }
            assert(out =~= head + rest);
            if has_text(out, "<%"@) {
                let k = choose|k: int|
                    0 <= k < out.len() - 1 && #[trigger] out[k] == '<' && out[k + 1] == '%';
                if k + 1 < p - i {
                    assert(out[k] == s[i + k] && out[k + 1] == s[i + k + 1]);
                    assert(s.subrange(i + k, i + k + 2) =~= "<%"@);
                    assert(occurs_at(s, "<%"@, i + k));
                } else if k < head.len() {
                    assert(k + 1 == p - i ==> out[k + 1] == '[');
                    assert(k >= p - i ==> out[k] == "[ERB]"@[k - (p - i)]);
                } else {
                    assert(rest[k - head.len()] == '<');
                    assert(rest[k - head.len() + 1] == '%');
                }
            }
        },
    }
}

/// Line `i` holds ERB: a tag opens in it, or is open at its start.
pub open spec fn holds_erb(lines: Seq<Seq<char>>, i: int) -> bool {
    cut_line(lines[i], stripped_upto(lines, i).open) is Some
}

/// Stripping keeps every line in its place: there are as many lines, line `i`
/// of the result is empty where that line of the source held ERB, and else it
/// is that line, but for a carriage return that is left at its end.
pub proof fn stripping_keeps_every_line_in_its_place(src: Seq<char>, i: int)
    requires
        0 <= i < bare_lines(src).len(),
    ensures
        bare_lines(stripped_of(src).text).len() == bare_lines(src).len(),
        holds_erb(bare_lines(src), i) ==> bare_lines(stripped_of(src).text)[i].len() == 0,
        !holds_erb(bare_lines(src), i) && !"\r"@.is_suffix_of(bare_lines(src)[i])
            ==> bare_lines(stripped_of(src).text)[i] == bare_lines(src)[i],
{
    let lines = bare_lines(src);
    lines_hold_no_break(src);
    text_of_lines(lines, lines.len() as int);
    if !"\r"@.is_suffix_of(lines[i]) {
        a_line_is_bare(lines[i]);
    }
}

/// What stands in line `i` without its ERB.
spec fn line_left(lines: Seq<Seq<char>>, i: int) -> Seq<char> {
    if holds_erb(lines, i) {
        Seq::empty()
    } else {
        bare_line(lines[i] + "\n"@)
    }
}

proof fn a_line_is_bare(line: Seq<char>)
    requires
        !"\r"@.is_suffix_of(line),
    ensures
        bare_line(line + "\n"@) == line,
{
    reveal_strlit("\n");
    let last = line + "\n"@;
    assert(last.subrange(last.len() - 1, last.len() as int) =~= "\n"@);
    assert(last.take(last.len() - 1) =~= line);
}

/// A line without its break holds none.
pub(crate) proof fn lines_hold_no_break(s: Seq<char>)
    ensures
        forall|i: int| 0 <= i < bare_lines(s).len() ==> !(#[trigger] bare_lines(s)[i]).contains('\n'),
    decreases s.len(),
{
    reveal_strlit("\n");
    reveal_strlit("\r");
    let p = position_of(s, '\n');
    position_is_first(s, '\n');
    if 0 <= p < s.len() {
        lines_hold_no_break(s.skip(p + 1));
        let rest = bare_lines(s.skip(p + 1));
        assert forall|i: int| 0 <= i < bare_lines(s).len() implies !(
        #[trigger] bare_lines(s)[i]).contains('\n') by {
            if i == 0 {
                let line = s.take(p + 1);
                assert(lines_of(s)[0] == line);
                assert("\n"@.is_suffix_of(line)) by {
                    assert(line.subrange(line.len() - 1, line.len() as int) =~= "\n"@);
                }
                let text = line.take(line.len() - 1);
                let bare = bare_line(line);
                assert(bare.contains('\n') ==> text.contains('\n')) by {
                    if bare.contains('\n') {
                        let k = bare.index_of('\n');
                        assert(text[k] == '\n');
                    }
                }
                if text.contains('\n') {
                    let k = text.index_of('\n');
                    assert(s[k] == '\n');
                }
            } else {
                assert(lines_of(s)[i] == lines_of(s.skip(p + 1))[i - 1]);
                assert(bare_lines(s)[i] == rest[i - 1]);
            }
        }
    } else if s.len() > 0 {
        assert forall|i: int| 0 <= i < bare_lines(s).len() implies !(
        #[trigger] bare_lines(s)[i]).contains('\n') by {
            assert(lines_of(s)[i] == s);
            assert(!"\n"@.is_suffix_of(s)) by {
                if "\n"@.is_suffix_of(s) {
                    assert(s.subrange(s.len() - 1, s.len() as int)[0] == s[s.len() - 1]);
                    assert(s.contains(s[s.len() - 1]));
                }
            }
        }
    }
}

/// The lines of a text that ends in a line break, with one more line behind it.
proof fn lines_of_appended(s: Seq<char>, line: Seq<char>)
    requires
        s.len() > 0 ==> s.last() == '\n',
        !line.contains('\n'),
    ensures
        lines_of(s + line + "\n"@) == lines_of(s).push(line + "\n"@),
    decreases s.len(),
{
    reveal_strlit("\n");
    let all = s + line + "\n"@;
    let last = line + "\n"@;
    let p = position_of(all, '\n');
    position_is_first(all, '\n');
    assert(all[all.len() - 1] == '\n');
    assert(all.contains('\n'));
    if s.len() == 0 {
        assert(all =~= last);
        if p < line.len() {
            assert(line[p] == '\n');
            assert(line.contains('\n'));
        }
        assert(p == line.len());
        assert(all.take(p + 1) =~= last);
        assert(all.skip(p + 1) =~= Seq::empty());
        assert(lines_of(Seq::<char>::empty()) =~= Seq::empty());
        assert(lines_of(s) =~= Seq::empty());
        assert(lines_of(all) =~= lines_of(s).push(last));
    } else {
        let q = position_of(s, '\n');
        position_is_first(s, '\n');
        assert(s.contains(s[s.len() - 1]));
        assert(all[q] == s[q]);
        assert(p == q) by {
            if p < q {
                assert(s[p] == all[p]);
            }
        }
        let rest = s.skip(q + 1);
        assert(rest.len() > 0 ==> rest.last() == s.last());
        lines_of_appended(rest, line);
        assert(all.skip(p + 1) =~= rest + line + "\n"@);
        assert(all.take(p + 1) =~= s.take(q + 1));
        assert(lines_of(all) =~= lines_of(s).push(last));
    }
}

proof fn text_of_lines(lines: Seq<Seq<char>>, n: int)
    requires
        0 <= n <= lines.len(),
        forall|k: int| 0 <= k < lines.len() ==> !(#[trigger] lines[k]).contains('\n'),
    ensures
        bare_lines(stripped_upto(lines, n).text).len() == n,
        forall|i: int|
            0 <= i < n ==> #[trigger] bare_lines(stripped_upto(lines, n).text)[i] == line_left(
                lines,
                i,
            ),
    decreases n,
{
    let now = stripped_upto(lines, n);
    if n <= 0 {
        assert(lines_of(now.text) =~= Seq::empty());
    } else {
        text_of_lines(lines, n - 1);
        no_tag_upto(lines, n - 1);
        reveal_strlit("\n");
        reveal_strlit("\r");
        let before = stripped_upto(lines, n - 1);
        let raw = lines[n - 1];
        let cut = cut_line(raw, before.open) is Some;
        let added = if cut {
            Seq::empty()
        } else {
            raw
        };
        assert(now.text =~= before.text + added + "\n"@);
        lines_of_appended(before.text, added);
        assert(lines_of(now.text).len() == n);
        let last = added + "\n"@;
        if cut {
            a_line_is_bare(added);
        }
        assert forall|i: int| 0 <= i < n implies #[trigger] bare_lines(now.text)[i] == line_left(
            lines,
            i,
        ) by {
            if i < n - 1 {
                assert(lines_of(now.text)[i] == lines_of(before.text)[i]);
                assert(bare_lines(before.text)[i] == line_left(lines, i));
            } else {
                assert(lines_of(now.text)[i] == last);
            }
        }
    }
}

// ------------------------------------------------------------------ the listing

/// The listed lines are exactly those that held nothing but ERB.
pub proof fn exactly_the_lines_of_erb_alone_are_listed(lines: Seq<Seq<char>>, n: int, k: int)
    requires
        0 <= n <= lines.len(),
    ensures
        stripped_upto(lines, n).erb_lines.contains(k) <==> 1 <= k <= n && holds_erb(lines, k - 1)
            && trim_of(cut_line(lines[k - 1], stripped_upto(lines, k - 1).open)->Some_0.0).len()
            == 0,
    decreases n,
{
    if n > 0 {
        exactly_the_lines_of_erb_alone_are_listed(lines, n - 1, k);
        let before = stripped_upto(lines, n - 1).erb_lines;
        let now = stripped_upto(lines, n).erb_lines;
        if before.contains(k) {
            assert(now[before.index_of(k)] == k);
        }
        if now.contains(k) && !before.contains(k) {
            let j = now.index_of(k);
            assert(j < before.len() ==> before[j] == k);
        }
        if now.len() > before.len() {
            assert(now[before.len() as int] == n);
        }
    }
}

} // verus!
