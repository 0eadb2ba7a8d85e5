//! Which keys magic comments name, and where they stand.
use crate::scan::ruby::args::{scope_of, ArgV};
use crate::scan::ruby::key::{resolved_keys, template_parts, CallCtxV};
use crate::scan::ruby::magic::{
    calls_from, calls_in, extracted, is_ascii_space, magic_payload, space_end, t_calls, t_calls_in,
    without_blanks, ExtractedV,
};
use crate::scan::ruby::nodes::{is_t_name, CallSiteV, RubyV};
use crate::scan::ruby::{
    comment_ctx, comment_found, comments_found, covering_lines, facts_of, innermost, magic_found,
    magic_keys, CommentV, FactsV, RangeV,
};
use crate::scan::{
    is_longest_root, leaves_method_out, lies_under, LocatorV, OccurrenceV, ScanConfigV,
};
use crate::text::{has_text, swap_char_of, trim_start_of};
use vstd::prelude::*;

verus! {

// ------------------------------------------------------------------- where it stands

/// The range at `i` holds the offset, and no range that holds it is shorter.
pub open spec fn is_shortest_around(ranges: Seq<RangeV>, offset: int, n: int, i: int) -> bool {
    &&& 0 <= i < n
    &&& ranges[i].start <= offset < ranges[i].end
    &&& forall|j: int|
        0 <= j < n && (#[trigger] ranges[j]).start <= offset < ranges[j].end ==> ranges[i].end
            - ranges[i].start <= ranges[j].end - ranges[j].start
}

proof fn innermost_is_shortest(ranges: Seq<RangeV>, offset: int, n: int)
    requires
        0 <= n <= ranges.len(),
    ensures
        ({
            let i = innermost(ranges, offset, n);
            &&& i >= 0 ==> is_shortest_around(ranges, offset, n, i)
            &&& i < 0 ==> forall|j: int|
                0 <= j < n ==> !((#[trigger] ranges[j]).start <= offset < ranges[j].end)
        }),
    decreases n,
{
    if n > 0 {
        innermost_is_shortest(ranges, offset, n - 1);
    }
}

/// A comment stands in the innermost scope around it: in one that holds it and
/// is no longer than any other that does. Outside of all scopes it stands where
/// its file stands.
pub proof fn a_comment_stands_in_the_innermost_scope(f: FactsV, ranges: Seq<RangeV>, offset: int)
    ensures
        ({
            let ctx = comment_ctx(f, ranges, offset);
            let n = ranges.len() as int;
            ||| (exists|i: int| #[trigger]
                is_shortest_around(ranges, offset, n, i) && ctx == ranges[i].ctx)
            ||| ctx.path == f.root_path && ctx.caps == f.root_caps && forall|j: int|
                0 <= j < n ==> !((#[trigger] ranges[j]).start <= offset < ranges[j].end)
        }),
{
    innermost_is_shortest(ranges, offset, ranges.len() as int);
}

// ----------------------------------------------------------------------- its keys

/// A call that names a key: it has no receiver, or that of the library, and a
/// text for its key.
pub open spec fn names_key(
    call: ExtractedV,
    ctx: CallCtxV,
    key: Seq<char>,
    keys: Seq<Seq<char>>,
) -> bool {
    &&& !call.receiver_present || call.receiver_is_i18n
    &&& call.args.len() > 0 && call.args[0] == ArgV::Str(key)
    &&& scope_of(call.kwargs) matches Ok(scope) && resolved_keys(
        key,
        scope,
        ctx,
        call.receiver_present,
    ) == Some(keys)
}

/// An entry of a comment: under the first of the keys that a call may stand for,
/// in the line of the comment.
pub open spec fn is_entry(
    f: FactsV,
    loc: LocatorV,
    offset: int,
    entry: (Seq<char>, OccurrenceV),
    key: Seq<char>,
    keys: Seq<Seq<char>>,
) -> bool {
    &&& entry.0 == keys[0]
    &&& entry.1.path == f.path
    &&& entry.1.raw_key == key
    &&& entry.1.candidate_keys == keys
    &&& entry.1.pos == loc.place(offset).0
    &&& entry.1.line_num == loc.place(offset).1
    &&& entry.1.line_pos == loc.place(offset).2
}

/// Each call of a comment that names a key adds one entry, and no entry comes
/// from anything else.
pub proof fn each_call_of_a_comment_adds_its_key(
    f: FactsV,
    loc: LocatorV,
    offset: int,
    text: Seq<char>,
    ctx: CallCtxV,
    calls: Seq<ExtractedV>,
    n: int,
    c: int,
    key: Seq<char>,
    keys: Seq<Seq<char>>,
    e: int,
)
    requires
        0 <= n <= calls.len(),
    ensures
        ({
            let found = magic_found(f, loc, offset, text, ctx, calls, n);
            &&& found.len() <= n
            &&& 0 <= c < n && names_key(calls[c], ctx, key, keys) ==> exists|i: int|
                0 <= i < found.len() && is_entry(f, loc, offset, #[trigger] found[i], key, keys)
            &&& 0 <= e < found.len() ==> exists|d: int, k: Seq<char>, v: Seq<Seq<char>>|
                0 <= d < n && #[trigger] names_key(calls[d], ctx, k, v) && is_entry(
                    f,
                    loc,
                    offset,
                    found[e],
                    k,
                    v,
                )
        }),
    decreases n,
{
    if n > 0 {
        let found = magic_found(f, loc, offset, text, ctx, calls, n);
        let before = magic_found(f, loc, offset, text, ctx, calls, n - 1);
        each_call_of_a_comment_adds_its_key(
            f,
            loc,
            offset,
            text,
            ctx,
            calls,
            n - 1,
            c,
            key,
            keys,
            e,
        );
        let call = calls[n - 1];
        if let Some((k, v)) = magic_keys(call, ctx) {
            assert(names_key(call, ctx, k, v));
            let last = before.len() as int;
            assert(found == before.push(found[last]));
            assert(is_entry(f, loc, offset, found[last], k, v));
            if 0 <= c < n - 1 && names_key(calls[c], ctx, key, keys) {
                let i = choose|i: int|
                    0 <= i < before.len() && is_entry(
                        f,
                        loc,
                        offset,
                        #[trigger] before[i],
                        key,
                        keys,
                    );
                assert(found[i] == before[i]);
            }
            if c == n - 1 && names_key(calls[c], ctx, key, keys) {
                assert(k == key && v == keys);
            }
            if 0 <= e < last {
                assert(found[e] == before[e]);
            }
        }
    }
}

/// A translation call stands in the node, as deep as it may be.
pub open spec fn holds_call(node: RubyV, call: CallSiteV) -> bool
    decreases node,
{
    match node {
        RubyV::Module { body, .. } => exists|i: int|
            0 <= i < body.len() && holds_call(#[trigger] body[i], call),
        RubyV::Class { body, .. } => exists|i: int|
            0 <= i < body.len() && holds_call(#[trigger] body[i], call),
        RubyV::Def { body, .. } => exists|i: int|
            0 <= i < body.len() && holds_call(#[trigger] body[i], call),
        RubyV::Call { method, call: own, body } => (is_t_name(method) && own == call)
            || exists|i: int| 0 <= i < body.len() && holds_call(#[trigger] body[i], call),
    }
}

proof fn a_held_call_is_listed(node: RubyV, call: CallSiteV)
    requires
        holds_call(node, call),
    ensures
        t_calls(node).contains(extracted(call)),
    decreases node, 0nat,
{
    match node {
        RubyV::Module { body, .. } => {
            held_calls_are_listed(body, body.len(), call);
        },
        RubyV::Class { body, .. } => {
            held_calls_are_listed(body, body.len(), call);
        },
        RubyV::Def { body, .. } => {
            held_calls_are_listed(body, body.len(), call);
        },
        RubyV::Call { method, call: own, body } => {
            let front = if is_t_name(method) {
                seq![extracted(own)]
            } else {
                Seq::empty()
            };
            let rest = t_calls_in(body, body.len());
            let all = t_calls(node);
            assert(all == front + rest);
            if is_t_name(method) && own == call {
                assert(all[0] == extracted(call));
            } else {
                held_calls_are_listed(body, body.len(), call);
                assert(all[front.len() + rest.index_of(extracted(call))] == extracted(call));
            }
        },
    }
}

proof fn held_calls_are_listed(nodes: Seq<RubyV>, n: nat, call: CallSiteV)
    requires
        n <= nodes.len(),
        exists|i: int| 0 <= i < n && holds_call(#[trigger] nodes[i], call),
    ensures
        t_calls_in(nodes, n).contains(extracted(call)),
    decreases nodes, n,
{
    let i = choose|i: int| 0 <= i < n && holds_call(#[trigger] nodes[i], call);
    let before = t_calls_in(nodes, (n - 1) as nat);
    let own = t_calls(nodes[n - 1]);
    let e = extracted(call);
    if i == n - 1 {
        a_held_call_is_listed(nodes[n - 1], call);
        assert((before + own)[before.len() + own.index_of(e)] == e);
    } else {
        held_calls_are_listed(nodes, (n - 1) as nat, call);
        assert((before + own)[before.index_of(e)] == e);
    }
}

/// Every call of a comment is looked at, wherever in it it stands.
pub proof fn every_call_of_a_comment_is_looked_at(nodes: Seq<RubyV>, i: int, call: CallSiteV)
    requires
        0 <= i < nodes.len(),
        holds_call(nodes[i], call),
    ensures
        t_calls_in(nodes, nodes.len()).contains(extracted(call)),
{
    held_calls_are_listed(nodes, nodes.len(), call);
}

/// What one comment adds stands in the whole.
pub proof fn each_comment_adds_its_keys(
    f: FactsV,
    loc: LocatorV,
    ranges: Seq<RangeV>,
    comments: Seq<CommentV>,
    n: int,
    entry: (Seq<char>, OccurrenceV),
    line: int,
)
    requires
        0 <= n <= comments.len(),
    ensures
        comments_found(f, loc, ranges, comments, n).contains(entry) <==> exists|i: int|
            0 <= i < n && comment_found(f, loc, ranges, #[trigger] comments[i]).contains(entry),
        covering_lines(f, loc, ranges, comments, n).contains(line) <==> exists|i: int|
            0 <= i < n && comment_found(f, loc, ranges, #[trigger] comments[i]).len() > 0
                && loc.place(comments[i].offset).1 == line,
    decreases n,
{
    if n > 0 {
        each_comment_adds_its_keys(f, loc, ranges, comments, n - 1, entry, line);
        let before = comments_found(f, loc, ranges, comments, n - 1);
        let own = comment_found(f, loc, ranges, comments[n - 1]);
        let now = comments_found(f, loc, ranges, comments, n);
        assert(now == before + own);
        if before.contains(entry) {
            assert(now[before.index_of(entry)] == entry);
        }
        if own.contains(entry) {
            assert(now[before.len() + own.index_of(entry)] == entry);
        }
        if now.contains(entry) {
            let k = now.index_of(entry);
            if k < before.len() {
                assert(before[k] == entry);
            } else {
                assert(own[k - before.len()] == entry);
            }
        }
        let old_lines = covering_lines(f, loc, ranges, comments, n - 1);
        let lines = covering_lines(f, loc, ranges, comments, n);
        let here = loc.place(comments[n - 1].offset).1;
        if own.len() > 0 {
            assert(lines == old_lines.push(here));
            assert(lines[old_lines.len() as int] == here);
            if old_lines.contains(line) {
                assert(lines[old_lines.index_of(line)] == line);
            }
            if lines.contains(line) && line != here {
                assert(old_lines[lines.index_of(line)] == line);
            }
        }
    }
}

// ------------------------------------------------------------------------ its text

proof fn blanks_are_passed(blanks: Seq<char>, rest: Seq<char>)
    requires
        forall|i: int| 0 <= i < blanks.len() ==> #[trigger] blanks[i] == ' ' || blanks[i] == '\t',
        rest.len() > 0,
        rest[0] != ' ' && rest[0] != '\t',
    ensures
        without_blanks(blanks + rest) == rest,
    decreases blanks.len(),
{
    let s = blanks + rest;
    if blanks.len() == 0 {
        assert(s =~= rest);
    } else {
        let less = blanks.skip(1);
        assert(s[0] == blanks[0]);
        assert(s.skip(1) =~= less + rest);
        assert forall|i: int| 0 <= i < less.len() implies #[trigger] less[i] == ' ' || less[i]
            == '\t' by {
            assert(less[i] == blanks[i + 1]);
        }
        blanks_are_passed(less, rest);
    }
}

/// A magic comment is one with the marker behind `#` and blanks, and with a
/// blank behind the marker; it holds what follows. Any other comment is none.
pub proof fn what_a_magic_comment_holds(blanks: Seq<char>, rest: Seq<char>, other: Seq<char>)
    requires
        forall|i: int| 0 <= i < blanks.len() ==> #[trigger] blanks[i] == ' ' || blanks[i] == '\t',
        other.len() > 0 && other[0] != ' ' && other[0] != '\t',
        !"i18n-tasks-use"@.is_prefix_of(other),
    ensures
        magic_payload(seq!['#'] + blanks + "i18n-tasks-use"@ + rest) == (if rest.len() > 0 && (
        rest[0] == ' ' || rest[0] == '\t') {
            Some(trim_start_of(rest))
        } else {
            None
        }),
        magic_payload(seq!['#'] + blanks + other) is None,
{
    reveal_strlit("i18n-tasks-use");
    let marker = "i18n-tasks-use"@;
    let tail = marker + rest;
    let text = seq!['#'] + blanks + marker + rest;
    assert(text.skip(1) =~= blanks + tail);
    assert(tail[0] == 'i');
    blanks_are_passed(blanks, tail);
    let n = marker.len() as int;
    assert(tail.subrange(0, n) =~= marker);
    assert(tail.skip(n) =~= rest);
    let second = seq!['#'] + blanks + other;
    assert(second.skip(1) =~= blanks + other);
    blanks_are_passed(blanks, other);
}

/// A call of a comment: it starts with `t`, and no white space in it has a `t`
/// behind it.
pub open spec fn is_one_call(s: Seq<char>) -> bool {
    &&& s.len() > 0
    &&& s[0] == 't'
    &&& !is_ascii_space(s.last())
    &&& forall|i: int| 0 <= i < s.len() - 1 && is_ascii_space(#[trigger] s[i]) ==> s[i + 1] != 't'
}

/// The calls from the one at `k` on, with a blank between them.
pub open spec fn in_a_row(calls: Seq<Seq<char>>, k: int) -> Seq<char>
    decreases calls.len() - k,
{
    if k < 0 || k >= calls.len() {
        Seq::empty()
    } else if k == calls.len() - 1 {
        calls[k]
    } else {
        calls[k] + seq![' '] + in_a_row(calls, k + 1)
    }
}

proof fn space_ends_inside(s: Seq<char>, i: int, e: int)
    requires
        0 <= i < e < s.len(),
        is_ascii_space(s[i]),
        !is_ascii_space(s[e]),
    ensures
        i < space_end(s, i) <= e,
        is_ascii_space(s[space_end(s, i) - 1]),
        !is_ascii_space(s[space_end(s, i)]),
    decreases e - i,
{
    if i + 1 < e && is_ascii_space(s[i + 1]) {
        space_ends_inside(s, i + 1, e);
    } else {
        assert(space_end(s, i + 1) == i + 1);
    }
}

proof fn one_call_is_read(s: Seq<char>, start: int, e: int, i: int)
    requires
        0 <= start <= i <= e <= s.len(),
        start < e,
        is_one_call(s.subrange(start, e)),
        i < e ==> i == start || !is_ascii_space(s[i - 1]) || !is_ascii_space(s[i]),
    ensures
        calls_from(s, start, i) == calls_from(s, start, e),
    decreases e - i,
{
    let c = s.subrange(start, e);
    if i < e {
        assert(c[i - start] == s[i]);
        assert(c.last() == s[e - 1]);
        if is_ascii_space(s[i]) {
            assert(i < e - 1);
            space_ends_inside(s, i, e - 1);
            let j = space_end(s, i);
            assert(c[j - 1 - start] == s[j - 1] && c[j - start] == s[j]);
            assert(is_ascii_space(c[j - 1 - start]));
            assert(s[j] != 't');
            one_call_is_read(s, start, e, j);
        } else {
            one_call_is_read(s, start, e, i + 1);
        }
    }
}

proof fn the_rest_is_split(s: Seq<char>, calls: Seq<Seq<char>>, k: int, start: int)
    requires
        0 <= k < calls.len(),
        0 <= start <= s.len(),
        s.skip(start) == in_a_row(calls, k),
        forall|i: int| 0 <= i < calls.len() ==> is_one_call(#[trigger] calls[i]),
    ensures
        calls_from(s, start, start) == calls.skip(k),
    decreases calls.len() - k,
{
    let c = calls[k];
    assert(is_one_call(c));
    let e = start + c.len();
    let rest = s.skip(start);
    assert(rest.len() == s.len() - start);
    if k == calls.len() - 1 {
        assert(s.subrange(start, e) =~= c) by {
            assert(rest == c);
            assert(e == s.len());
            assert forall|i: int| 0 <= i < c.len() implies s.subrange(start, e)[i] == c[i] by {
                assert(rest[i] == s[start + i]);
            }
        }
        one_call_is_read(s, start, e, start);
        assert(calls_from(s, start, e) == seq![s.skip(start)]);
        assert(calls.skip(k) =~= seq![c]);
    } else {
        let next = in_a_row(calls, k + 1);
        assert(is_one_call(calls[k + 1]));
        assert(next.len() > 0 && next[0] == 't');
        assert(rest == c + seq![' '] + next);
        assert(s.subrange(start, e) =~= c) by {
            assert forall|i: int| 0 <= i < c.len() implies s.subrange(start, e)[i] == c[i] by {
                assert(rest[i] == s[start + i]);
            }
        }
        one_call_is_read(s, start, e, start);
        assert(s[e] == ' ') by {
            assert(rest[c.len() as int] == s[e]);
        }
        assert(s[e + 1] == 't') by {
            assert(rest[c.len() as int + 1] == s[e + 1]);
        }
        assert(space_end(s, e + 1) == e + 1);
        assert(space_end(s, e) == e + 1);
        assert(s.skip(e + 1) =~= next) by {
            assert forall|i: int| 0 <= i < next.len() implies s.skip(e + 1)[i] == next[i] by {
                assert(rest[c.len() as int + 1 + i] == s[e + 1 + i]);
            }
        }
        the_rest_is_split(s, calls, k + 1, e + 1);
        assert(calls_from(s, start, e) == seq![c] + calls_from(s, e + 1, e + 1));
        assert(calls.skip(k) =~= seq![c] + calls.skip(k + 1));
    }
}

/// The calls of a comment that stand one behind the other are told apart.
pub proof fn calls_in_a_row_are_told_apart(calls: Seq<Seq<char>>)
    requires
        calls.len() > 0,
        forall|i: int| 0 <= i < calls.len() ==> is_one_call(#[trigger] calls[i]),
    ensures
        calls_in(in_a_row(calls, 0)) == calls,
{
    let s = in_a_row(calls, 0);
    assert(s.skip(0) =~= s);
    the_rest_is_split(s, calls, 0, 0);
    assert(calls.skip(0) =~= calls);
}

// ------------------------------------------------------------------------- its file

/// What a file says of the calls in it. In a Ruby file a key needs a scope to be
/// relative to; another file under a root has its own path for one. The name of
/// the method is left out where the longest root says so.
pub proof fn what_a_file_says_of_its_calls(path: Seq<char>, cfg: ScanConfigV, root: int)
    ensures
        ({
            let f = facts_of(path, cfg);
            let posix = swap_char_of(path, '\\', '/');
            let ruby = ".rb"@.is_suffix_of(posix);
            let roots = cfg.relative_roots;
            &&& f.path == path
            &&& !f.root_caps.candidate
            &&& ruby ==> !f.root_caps.relative && f.root_path.len() == 0
            &&& (f.view_component_file <==> has_text(posix, "app/components/"@))
            &&& is_longest_root(roots, path, root) ==> f.under_root && (!ruby
                ==> f.root_caps.relative && f.root_path == template_parts(posix, roots[root])) && (
            f.append_method_name <==> !leaves_method_out(
                cfg.relative_exclude_method_name_paths,
                roots[root],
            ))
            &&& (forall|j: int| 0 <= j < roots.len() ==> !lies_under(path, #[trigger] roots[j]))
                ==> !f.under_root && !f.root_caps.relative && f.append_method_name
                && f.root_path.len() == 0
        }),
{
    let roots = cfg.relative_roots;
    if is_longest_root(roots, path, root) {
        let i = choose|i: int| is_longest_root(roots, path, i);
        assert(is_longest_root(roots, path, i));
        assert(i == root) by {
            assert(lies_under(path, roots[i]) && lies_under(path, roots[root]));
        }
    }
}

} // verus!
