//! What the text of a config reads as.
//!
//! The reading covers what a plain config is written in: comments, mappings by
//! their indentation, lists of texts, and plain texts, but no text in quotes.
//! Line numbers are left out. It exists in contracts only.
use crate::data::emit::reading::{
    complete, dash_at, ends_name, entry_at, next_start, next_start_appended, next_start_none,
    plain_end, spaces,
};
use crate::init::settings::{list_node, text_node};
use crate::text::{
    decimal, digit_of, find_from_of, find_is_first, is_space, occurs_at, position_is_first,
    position_of, trim_end_of, trim_of,
};
use crate::yaml::NodeV;
use vstd::prelude::*;

verus! {

// -------------------------------------------------------------------- the lines

/// A line without its comment and without white space at its end.
pub open spec fn uncommented(line: Seq<char>) -> Seq<char> {
    if line.len() > 0 && line[0] == '#' {
        Seq::empty()
    } else {
        match find_from_of(line, " #"@, 0) {
            Some(i) => trim_end_of(line.take(i)),
            None => trim_end_of(line),
        }
    }
}

/// The lines of a text that hold something, without their comments.
pub open spec fn content(t: Seq<char>) -> Seq<Seq<char>>
    decreases t.len(),
{
    let p = position_of(t, '\n');
    let line = uncommented(t.take(p));
    let rest = if 0 <= p < t.len() {
        content(t.skip(p + 1))
    } else {
        Seq::empty()
    };
    if line.len() == 0 {
        rest
    } else {
        seq![line] + rest
    }
}

/// A line that is empty or holds a comment starts at `i`.
pub open spec fn opens_comment(t: Seq<char>, i: int) -> bool {
    ||| t[i] == '#'
    ||| t[i] == '\n'
    ||| i + 2 < t.len() && t[i] == ' ' && t[i + 1] == ' ' && t[i + 2] == '#'
}

/// Every line of the text is empty or holds a comment.
#[verifier::opaque]
pub open spec fn is_comment_text(t: Seq<char>) -> bool {
    &&& complete(t)
    &&& forall|i: int|
        #![trigger t[i]]
        0 <= i < t.len() && (i == 0 || t[i - 1] == '\n') ==> opens_comment(t, i)
}

pub(crate) proof fn content_joined(a: Seq<char>, b: Seq<char>)
    requires
        complete(a),
    ensures
        content(a + b) == content(a) + content(b),
        complete(b) ==> complete(a + b),
    decreases a.len(),
{
    if a.len() == 0 {
        assert(a + b =~= b);
        assert(a.take(0) =~= a);
        assert(uncommented(a) =~= Seq::empty()) by {
            find_is_first(a, " #"@, 0);
            reveal_strlit(" #");
        }
        assert(content(a) + content(b) =~= content(b));
    } else {
        let p = position_of(a, '\n');
        position_is_first(a, '\n');
        position_is_first(a + b, '\n');
        assert(a[a.len() - 1] == '\n');
        assert(position_of(a + b, '\n') == p) by {
            let q = position_of(a + b, '\n');
            assert((a + b)[p] == '\n');
            if q < p {
                assert((a + b)[q] == a[q]);
            }
        }
        let rest = a.skip(p + 1);
        content_joined(rest, b);
        assert((a + b).skip(p + 1) =~= rest + b);
        assert((a + b).take(p) =~= a.take(p));
        assert(content(a + b) =~= content(a) + content(b));
        if b.len() == 0 {
            assert(a + b =~= a);
        }
    }
}

pub(crate) proof fn content_of_line(line: Seq<char>)
    requires
        !line.contains('\n'),
        uncommented(line).len() > 0,
    ensures
        content(line + "\n"@) == seq![uncommented(line)],
        complete(line + "\n"@),
{
    reveal_strlit("\n");
    let t = line + "\n"@;
    let p = position_of(t, '\n');
    position_is_first(t, '\n');
    assert(t[line.len() as int] == '\n');
    if p < line.len() {
        assert(line[p] == '\n');
    }
    assert(t.take(p) =~= line);
    let rest = t.skip(p + 1);
    assert(rest =~= Seq::empty());
    nothing_holds_nothing();
    assert(content(t) =~= seq![uncommented(line)]);
}

proof fn nothing_holds_nothing()
    ensures
        content(Seq::empty()) == Seq::<Seq<char>>::empty(),
        uncommented(Seq::empty()) == Seq::<char>::empty(),
{
    let none = Seq::<char>::empty();
    reveal_strlit(" #");
    find_is_first(none, " #"@, 0);
    assert(none.take(0) =~= none);
}

/// A line of a comment behind two spaces holds nothing.
proof fn an_indented_comment_is_cut(line: Seq<char>)
    requires
        line.len() >= 3,
        line[0] == ' ',
        line[1] == ' ',
        line[2] == '#',
    ensures
        uncommented(line) == Seq::<char>::empty(),
{
    reveal_strlit(" #");
    find_is_first(line, " #"@, 0);
    assert(line.subrange(1, 3) =~= " #"@);
    assert(occurs_at(line, " #"@, 1));
    if occurs_at(line, " #"@, 0) {
        assert(line.subrange(0, 2)[1] == line[1]);
    }
    assert(find_from_of(line, " #"@, 0) == Some(1int));
    let blank = line.take(1);
    let none = blank.subrange(0, 0);
    assert(is_space(blank[0]));
    assert(none =~= Seq::empty());
    assert(trim_end_of(none) == none);
    assert(trim_end_of(blank) == none);
}

/// What follows a line of comment is comment too.
proof fn comment_stays(t: Seq<char>, p: int)
    requires
        is_comment_text(t),
        0 <= p < t.len(),
        t[p] == '\n',
    ensures
        is_comment_text(t.skip(p + 1)),
{
    reveal(is_comment_text);
    let rest = t.skip(p + 1);
    assert(rest.len() > 0 ==> rest.last() == t.last());
    assert forall|i: int|
        #![trigger rest[i]]
        0 <= i < rest.len() && (i == 0 || rest[i - 1] == '\n') implies opens_comment(rest, i) by {
        assert(t[p + 1 + i] == rest[i]);
        assert(i > 0 ==> t[p + i] == rest[i - 1]);
        assert(opens_comment(t, p + 1 + i));
    }
}

/// A text of comments holds nothing.
pub(crate) proof fn comments_hold_nothing(t: Seq<char>)
    requires
        is_comment_text(t),
    ensures
        content(t) == Seq::<Seq<char>>::empty(),
        complete(t),
    decreases t.len(),
{
    reveal(is_comment_text);
    nothing_holds_nothing();
    if t.len() == 0 {
        assert(t =~= Seq::empty());
    } else {
        let p = position_of(t, '\n');
        position_is_first(t, '\n');
        assert(t[t.len() - 1] == '\n');
        assert(opens_comment(t, 0));
        let line = t.take(p);
        if p == 0 {
            assert(line =~= Seq::empty());
        } else if t[0] != '#' {
            assert(p >= 3);
            an_indented_comment_is_cut(line);
        } else {
            assert(line[0] == '#');
        }
        comment_stays(t, p);
        comments_hold_nothing(t.skip(p + 1));
    }
}

pub(crate) proof fn comments_joined(a: Seq<char>, b: Seq<char>)
    requires
        is_comment_text(a),
        is_comment_text(b),
    ensures
        is_comment_text(a + b),
{
    reveal(is_comment_text);
    let t = a + b;
    assert forall|i: int|
        #![trigger t[i]]
        0 <= i < t.len() && (i == 0 || t[i - 1] == '\n') implies opens_comment(t, i) by {
        if i < a.len() {
            assert(t[i] == a[i]);
            assert(i > 0 ==> t[i - 1] == a[i - 1]);
            assert(opens_comment(a, i));
        } else {
            assert(t[i] == b[i - a.len()]);
            assert(i > a.len() ==> t[i - 1] == b[i - a.len() - 1]);
            assert(opens_comment(b, i - a.len()));
        }
    }
    if b.len() == 0 {
        assert(t =~= a);
    }
}

pub(crate) proof fn a_line_of_comment(line: Seq<char>)
    requires
        !line.contains('\n'),
        line.len() > 0,
        line[0] == '#',
    ensures
        is_comment_text(line + "\n"@),
{
    reveal(is_comment_text);
    reveal_strlit("\n");
    let t = line + "\n"@;
    assert forall|i: int|
        #![trigger t[i]]
        0 <= i < t.len() && (i == 0 || t[i - 1] == '\n') implies opens_comment(t, i) by {
        if 0 < i {
            assert(t[i - 1] == line[i - 1]);
        }
    }
}

pub(crate) proof fn joined_on_one_line(a: Seq<char>, b: Seq<char>)
    requires
        !a.contains('\n'),
        !b.contains('\n'),
    ensures
        !(a + b).contains('\n'),
{
    if (a + b).contains('\n') {
        let k = (a + b).index_of('\n');
        if k < a.len() {
            assert(a[k] == '\n');
        } else {
            assert(b[k - a.len()] == '\n');
        }
    }
}

pub(crate) proof fn a_number_stands_on_one_line(n: nat)
    ensures
        !decimal(n).contains('\n'),
    decreases n,
{
    assert(digit_of(n % 10) != '\n' && digit_of(n) != '\n');
    if n >= 10 {
        a_number_stands_on_one_line(n / 10);
        joined_on_one_line(decimal(n / 10), seq![digit_of(n % 10)]);
        assert(decimal(n) =~= decimal(n / 10) + seq![digit_of(n % 10)]);
    }
}

pub(crate) proof fn empty_is_comment()
    ensures
        is_comment_text(Seq::empty()),
        content(Seq::empty()) == Seq::<Seq<char>>::empty(),
{
    reveal(is_comment_text);
    comments_hold_nothing(Seq::empty());
}

/// A break at the start of a text is an empty line.
pub(crate) proof fn a_break_holds_nothing(t: Seq<char>)
    ensures
        content("\n"@ + t) == content(t),
        complete(t) ==> complete("\n"@ + t),
{
    assert(is_comment_text("\n"@)) by {
        reveal(is_comment_text);
        reveal_strlit("\n");
    }
    comments_hold_nothing("\n"@);
    content_joined("\n"@, t);
    assert(content("\n"@) + content(t) =~= content(t));
}

/// Comments in front of a text hold nothing.
pub(crate) proof fn comments_are_passed(c: Seq<char>, t: Seq<char>)
    requires
        is_comment_text(c),
    ensures
        content(c + t) == content(t),
        complete(t) ==> complete(c + t),
{
    comments_hold_nothing(c);
    content_joined(c, t);
    assert(content(c) + content(t) =~= content(t));
}

/// Two texts hold what each of them holds.
pub(crate) proof fn both_hold(a: Seq<char>, b: Seq<char>, x: Seq<Seq<char>>, y: Seq<Seq<char>>)
    requires
        complete(a),
        complete(b),
        content(a) == x,
        content(b) == y,
    ensures
        content(a + b) == x + y,
        complete(a + b),
{
    content_joined(a, b);
}

// ------------------------------------------------------------------- the reading

/// A text and the lines that continue it, as one text.
pub open spec fn folded(first: Seq<char>, more: Seq<Seq<char>>) -> Seq<char>
    decreases more.len(),
{
    if more.len() == 0 {
        first
    } else {
        folded(first, more.drop_last()) + " "@ + trim_of(more.last())
    }
}

/// The spaces at the start of a line.
pub open spec fn margin(line: Seq<char>) -> nat
    decreases line.len(),
{
    if line.len() > 0 && line[0] == ' ' {
        1 + margin(line.skip(1))
    } else {
        0
    }
}

/// The items of a list whose dashes stand behind `d` spaces. Each is a text.
pub open spec fn texts_read(lines: Seq<Seq<char>>, d: nat) -> Seq<NodeV>
    decreases lines.len(),
{
    if lines.len() == 0 {
        Seq::empty()
    } else {
        let n = next_start(lines, 1, d, true);
        if 1 <= n <= lines.len() {
            seq![text_node(folded(lines[0].skip(d as int + 2), lines.subrange(1, n)))] + texts_read(
                lines.skip(n),
                d,
            )
        } else {
            Seq::empty()
        }
    }
}

/// What stands behind the colon of a name reads as: `rest` on its line, and
/// the lines below it.
pub open spec fn setting_read(rest: Seq<char>, body: Seq<Seq<char>>) -> NodeV
    decreases body.len(), 1nat,
{
    if rest == " []"@ && body.len() == 0 {
        list_node(Seq::empty())
    } else if rest.len() > 0 {
        text_node(folded(rest.skip(1), body))
    } else if body.len() == 0 {
        text_node(Seq::empty())
    } else if dash_at(body[0], margin(body[0])) {
        NodeV::List { items: texts_read(body, margin(body[0])), line: 0 }
    } else {
        NodeV::Mapping { entries: entries_read(body, margin(body[0])), line: 0 }
    }
}

/// The entries of a mapping whose names stand behind `d` spaces.
pub open spec fn entries_read(lines: Seq<Seq<char>>, d: nat) -> Seq<(NodeV, NodeV)>
    decreases lines.len(), 0nat,
{
    if lines.len() == 0 {
        Seq::empty()
    } else {
        let n = next_start(lines, 1, d, false);
        let t = lines[0].skip(d as int);
        let k = plain_end(t, 0);
        if 1 <= n <= lines.len() {
            seq![(text_node(t.take(k)), setting_read(t.skip(k + 1), lines.subrange(1, n)))]
                + entries_read(lines.skip(n), d)
        } else {
            Seq::empty()
        }
    }
}

/// What a config reads as.
pub open spec fn config_read(t: Seq<char>) -> NodeV {
    NodeV::Mapping { entries: entries_read(content(t), 0), line: 0 }
}

/// One more entry behind a mapping is read behind it.
pub(crate) proof fn entries_joined(a: Seq<Seq<char>>, c: Seq<Seq<char>>, d: nat)
    requires
        c.len() > 0,
        entry_at(c[0], d),
    ensures
        entries_read(a + c, d) == entries_read(a, d) + entries_read(c, d),
    decreases a.len(),
{
    if a.len() == 0 {
        assert(a + c =~= c);
        assert(entries_read(a, d) + entries_read(c, d) =~= entries_read(c, d));
    } else {
        let n = next_start(a, 1, d, false);
        next_start_appended(a, c, 1, d, false);
        entries_joined(a.skip(n), c, d);
        assert((a + c).skip(n) =~= a.skip(n) + c);
        assert((a + c).subrange(1, n) =~= a.subrange(1, n));
        assert((a + c)[0] == a[0]);
        assert(entries_read(a + c, d) =~= entries_read(a, d) + entries_read(c, d));
    }
}

/// A line that holds a name behind `d` spaces, and `rest` behind its colon.
pub open spec fn names(line: Seq<char>, d: nat, name: Seq<char>, rest: Seq<char>) -> bool {
    &&& line == spaces(d) + name + ":"@ + rest
    &&& !name.contains(':')
    &&& name.len() > 0
    &&& name[0] != ' '
    &&& name[0] != '-'
    &&& rest.len() == 0 || rest[0] == ' '
}

proof fn first_colon(t: Seq<char>, i: int, k: int)
    requires
        0 <= i <= k,
        ends_name(t, k),
        forall|j: int| i <= j < k ==> t[j] != ':',
    ensures
        plain_end(t, i) == k,
    decreases k - i,
{
    if i < k {
        first_colon(t, i + 1, k);
    }
}

pub(crate) proof fn a_named_line_is_an_entry(
    line: Seq<char>,
    d: nat,
    name: Seq<char>,
    rest: Seq<char>,
)
    requires
        names(line, d, name, rest),
    ensures
        entry_at(line, d),
        plain_end(line.skip(d as int), 0) == name.len(),
        line.skip(d as int).take(name.len() as int) == name,
        line.skip(d as int).skip(name.len() as int + 1) == rest,
{
    reveal_strlit(":");
    let t = line.skip(d as int);
    assert(t =~= name + ":"@ + rest);
    assert(line.subrange(0, d as int) =~= spaces(d));
    assert(line[d as int] == name[0]);
    assert forall|j: int| 0 <= j < name.len() implies t[j] != ':' by {
        assert(t[j] == name[j]);
        assert(name.contains(name[j]));
    }
    assert(rest.len() > 0 ==> t[name.len() as int + 1] == rest[0]);
    first_colon(t, 0, name.len() as int);
    assert(t.take(name.len() as int) =~= name);
    assert(t.skip(name.len() as int + 1) =~= rest);
}

/// A name and the lines below it are one entry.
pub(crate) proof fn one_entry_is_read(
    lines: Seq<Seq<char>>,
    d: nat,
    name: Seq<char>,
    rest: Seq<char>,
)
    requires
        lines.len() > 0,
        names(lines[0], d, name, rest),
        forall|j: int| 1 <= j < lines.len() ==> !entry_at(#[trigger] lines[j], d),
    ensures
        entries_read(lines, d) == seq![(text_node(name), setting_read(rest, lines.skip(1)))],
{
    a_named_line_is_an_entry(lines[0], d, name, rest);
    next_start_none(lines, 1, d, false);
    let n = lines.len() as int;
    assert(lines.subrange(1, n) =~= lines.skip(1));
    assert(lines.skip(n) =~= Seq::empty());
    assert(entries_read(lines.skip(n), d) =~= Seq::empty());
    assert(entries_read(lines, d) =~= seq![
        (text_node(name), setting_read(rest, lines.skip(1))),
    ]);
}

// ----------------------------------------------------------------------- the lists

/// Texts as the lines of a list.
pub open spec fn dashes(v: Seq<Seq<char>>) -> Seq<Seq<char>> {
    Seq::new(v.len(), |i: int| "    - "@ + v[i])
}

pub(crate) proof fn a_dash_is_deep(s: Seq<char>)
    ensures
        dash_at("    - "@ + s, 4),
        margin("    - "@ + s) == 4,
        !entry_at("    - "@ + s, 2),
        !entry_at("    - "@ + s, 0),
        ("    - "@ + s).skip(6) == s,
{
    reveal_strlit("    - ");
    let line = "    - "@ + s;
    assert(line.subrange(0, 4) =~= spaces(4));
    assert(line.skip(6) =~= s);
    reveal_with_fuel(margin, 5);
    assert(line.skip(1).skip(1).skip(1).skip(1)[0] == line[4]);
    assert(line.skip(1).skip(1).skip(1)[0] == line[3]);
    assert(line.skip(1).skip(1)[0] == line[2]);
    assert(line.skip(1)[0] == line[1]);
}

proof fn dashes_are_texts(v: Seq<Seq<char>>)
    ensures
        texts_read(dashes(v), 4) == list_node(v)->items,
    decreases v.len(),
{
    let lines = dashes(v);
    if v.len() == 0 {
        assert(list_node(v)->items =~= Seq::empty());
    } else {
        a_dash_is_deep(v[0]);
        let rest = v.skip(1);
        dashes_are_texts(rest);
        assert(lines.skip(1) =~= dashes(rest));
        if v.len() > 1 {
            a_dash_is_deep(v[1]);
        }
        assert(next_start(lines, 1, 4, true) == 1);
        assert(lines.subrange(1, 1) =~= Seq::empty());
        assert(texts_read(lines, 4) =~= list_node(v)->items);
    }
}

/// A list of texts is read as it is.
pub(crate) proof fn a_list_is_read_back(v: Seq<Seq<char>>)
    requires
        v.len() > 0,
    ensures
        setting_read(Seq::empty(), dashes(v)) == list_node(v),
{
    reveal_strlit(" []");
    a_dash_is_deep(v[0]);
    dashes_are_texts(v);
    assert(dashes(v)[0] == "    - "@ + v[0]);
}

} // verus!
