//! Which calls of a Ruby file are found, and under which keys.
use crate::scan::ruby::args::{keywords_upto, positional_upto, reduced, ArgV};
use crate::scan::ruby::key::{all_wildcard, joined_key, CallCtxV};
use crate::scan::ruby::nodes::{constant_names, is_i18n, is_t_name, CallSiteV, ExprV, RubyV};
use crate::scan::ruby::{
    class_scope, covering_lines, ctx_in, entered, made_private, method_scope, module_scope,
    ruby_scan, uncovered, visited, visited_all, with_call, CommentV, FactsV, WalkV,
};
use crate::scan::{nothing_found, FileScanV, LocatorV, OccurrenceV};
use crate::text::without_prefix;
use vstd::prelude::*;
use vstd::utf8::encode_utf8;

verus! {

/// The names of the calls that translate.
pub open spec fn translates(method: Seq<u8>) -> bool {
    exists|name: Seq<char>|
        (name == "t"@ || name == "t!"@ || name == "translate"@ || name == "translate!"@) && method
            == #[trigger] encode_utf8(name)
}

/// The call has a receiver other than `I18n` and `::I18n`.
pub open spec fn has_foreign_receiver(call: CallSiteV) -> bool {
    match call.receiver {
        None => false,
        Some(e) => e != ExprV::Const("I18n"@) && e != ExprV::ConstPath(None, Some("I18n"@)),
    }
}

/// A call that translates stands in the node. What stands inside such a call
/// on a foreign receiver does not count.
pub open spec fn stands_in(node: RubyV, call: CallSiteV) -> bool
    decreases node,
{
    match node {
        RubyV::Module { body, .. } => exists|i: int|
            0 <= i < body.len() && stands_in(#[trigger] body[i], call),
        RubyV::Class { body, .. } => exists|i: int|
            0 <= i < body.len() && stands_in(#[trigger] body[i], call),
        RubyV::Def { body, .. } => exists|i: int|
            0 <= i < body.len() && stands_in(#[trigger] body[i], call),
        RubyV::Call { method, call: own, body } => {
            ||| translates(method) && own == call
            ||| !(translates(method) && has_foreign_receiver(own)) && exists|i: int|
                0 <= i < body.len() && stands_in(#[trigger] body[i], call)
        },
    }
}

/// The call stands in one of the nodes.
pub open spec fn stands_among(nodes: Seq<RubyV>, call: CallSiteV) -> bool {
    exists|i: int| 0 <= i < nodes.len() && stands_in(#[trigger] nodes[i], call)
}

/// The second scan has all that the first one has.
pub open spec fn extends(a: FileScanV, b: FileScanV) -> bool {
    a.keys.is_prefix_of(b.keys) && a.patterns.is_prefix_of(b.patterns) && a.opaque.is_prefix_of(
        b.opaque,
    )
}

/// The occurrence is in the file, and where the call starts.
pub open spec fn stands_at(occ: OccurrenceV, f: FactsV, loc: LocatorV, call: CallSiteV) -> bool {
    let (pos, line, column) = loc.place(call.start);
    occ.path == f.path && occ.pos == pos && occ.line_num == line && occ.line_pos == column
}

// ----------------------------------------------------------------- small parts

proof fn translating_names(method: Seq<u8>)
    ensures
        translates(method) <==> is_t_name(method),
{
    if is_t_name(method) {
        let name = if method == encode_utf8("t"@) {
            "t"@
        } else if method == encode_utf8("t!"@) {
            "t!"@
        } else if method == encode_utf8("translate"@) {
            "translate"@
        } else {
            "translate!"@
        };
        assert(method == encode_utf8(name));
    }
}

proof fn foreign_receivers(call: CallSiteV)
    ensures
        has_foreign_receiver(call) <==> call.receiver is Some && !is_i18n(call.receiver->Some_0),
{
}

proof fn extending_is_transitive(a: FileScanV, b: FileScanV, c: FileScanV)
    requires
        extends(a, b),
        extends(b, c),
    ensures
        extends(a, c),
{
    assert(a.keys =~= c.keys.subrange(0, a.keys.len() as int)) by {
        assert forall|i: int| 0 <= i < a.keys.len() implies a.keys[i] == c.keys[i] by {
            assert(b.keys.subrange(0, a.keys.len() as int)[i] == b.keys[i]);
            assert(c.keys.subrange(0, b.keys.len() as int)[i] == c.keys[i]);
        }
    }
    assert(a.patterns =~= c.patterns.subrange(0, a.patterns.len() as int)) by {
        assert forall|i: int| 0 <= i < a.patterns.len() implies a.patterns[i] == c.patterns[i] by {
            assert(b.patterns.subrange(0, a.patterns.len() as int)[i] == b.patterns[i]);
            assert(c.patterns.subrange(0, b.patterns.len() as int)[i] == c.patterns[i]);
        }
    }
    assert(a.opaque =~= c.opaque.subrange(0, a.opaque.len() as int)) by {
        assert forall|i: int| 0 <= i < a.opaque.len() implies a.opaque[i] == c.opaque[i] by {
            assert(b.opaque.subrange(0, a.opaque.len() as int)[i] == b.opaque[i]);
            assert(c.opaque.subrange(0, b.opaque.len() as int)[i] == c.opaque[i]);
        }
    }
}

proof fn a_scan_extends_itself(a: FileScanV)
    ensures
        extends(a, a),
{
    assert(a.keys =~= a.keys.subrange(0, a.keys.len() as int));
    assert(a.patterns =~= a.patterns.subrange(0, a.patterns.len() as int));
    assert(a.opaque =~= a.opaque.subrange(0, a.opaque.len() as int));
}

proof fn a_call_extends(
    f: FactsV,
    loc: LocatorV,
    out: FileScanV,
    call: CallSiteV,
    ctx: CallCtxV,
)
    ensures
        extends(out, with_call(f, loc, out, call, ctx)),
{
    let now = with_call(f, loc, out, call, ctx);
    assert(out.keys =~= now.keys.subrange(0, out.keys.len() as int));
    assert(out.patterns =~= now.patterns.subrange(0, out.patterns.len() as int));
    assert(out.opaque =~= now.opaque.subrange(0, out.opaque.len() as int));
}

proof fn a_walk_extends(node: RubyV, f: FactsV, loc: LocatorV, w: WalkV)
    ensures
        extends(w.out, visited(node, f, loc, w).out),
    decreases node, 0nat,
{
    match node {
        RubyV::Module { name, start, end, body } => {
            let inside = entered(f, w, module_scope(f, w.scopes, name), start, end);
            a_walk_over_all_extends(body, body.len(), f, loc, inside);
        },
        RubyV::Class { name, constant, start, end, body } => {
            let scope = class_scope(f, w.scopes, name, constant_names(constant));
            a_walk_over_all_extends(body, body.len(), f, loc, entered(f, w, scope, start, end));
        },
        RubyV::Def { name, start, end, body } => {
            let inside = entered(f, w, method_scope(f, w.scopes, name), start, end);
            a_walk_over_all_extends(body, body.len(), f, loc, inside);
        },
        RubyV::Call { method, call, body } => {
            let made = WalkV { scopes: made_private(w.scopes), ..w };
            let called = WalkV {
                out: with_call(f, loc, w.out, call, ctx_in(f, w.scopes)),
                ..w
            };
            a_walk_over_all_extends(body, body.len(), f, loc, made);
            a_walk_over_all_extends(body, body.len(), f, loc, called);
            a_walk_over_all_extends(body, body.len(), f, loc, w);
            a_call_extends(f, loc, w.out, call, ctx_in(f, w.scopes));
            extending_is_transitive(
                w.out,
                called.out,
                visited_all(body, body.len(), f, loc, called).out,
            );
        },
    }
}

proof fn a_walk_over_all_extends(
    nodes: Seq<RubyV>,
    n: nat,
    f: FactsV,
    loc: LocatorV,
    w: WalkV,
)
    ensures
        extends(w.out, visited_all(nodes, n, f, loc, w).out),
    decreases nodes, n,
{
    if 0 < n <= nodes.len() {
        let before = visited_all(nodes, (n - 1) as nat, f, loc, w);
        a_walk_over_all_extends(nodes, (n - 1) as nat, f, loc, w);
        a_walk_extends(nodes[n - 1], f, loc, before);
        extending_is_transitive(w.out, before.out, visited(nodes[n - 1], f, loc, before).out);
    } else {
        a_scan_extends_itself(w.out);
    }
}

/// The call is taken up by the scan, in some scope.
pub open spec fn is_taken_up(f: FactsV, loc: LocatorV, call: CallSiteV, out: FileScanV) -> bool {
    exists|before: FileScanV, ctx: CallCtxV|
        extends(#[trigger] with_call(f, loc, before, call, ctx), out)
}

proof fn taken_up_stays(f: FactsV, loc: LocatorV, call: CallSiteV, a: FileScanV, b: FileScanV)
    requires
        is_taken_up(f, loc, call, a),
        extends(a, b),
    ensures
        is_taken_up(f, loc, call, b),
{
    let (before, ctx) = choose|before: FileScanV, ctx: CallCtxV|
        extends(#[trigger] with_call(f, loc, before, call, ctx), a);
    extending_is_transitive(with_call(f, loc, before, call, ctx), a, b);
}

proof fn a_walk_takes_up(node: RubyV, f: FactsV, loc: LocatorV, w: WalkV, wanted: CallSiteV)
    requires
        stands_in(node, wanted),
    ensures
        is_taken_up(f, loc, wanted, visited(node, f, loc, w).out),
    decreases node, 0nat,
{
    match node {
        RubyV::Module { name, start, end, body } => {
            let inside = entered(f, w, module_scope(f, w.scopes, name), start, end);
            let i = choose|i: int| 0 <= i < body.len() && stands_in(#[trigger] body[i], wanted);
            a_walk_over_all_takes_up(body, body.len(), f, loc, inside, wanted, i);
        },
        RubyV::Class { name, constant, start, end, body } => {
            let scope = class_scope(f, w.scopes, name, constant_names(constant));
            let inside = entered(f, w, scope, start, end);
            let i = choose|i: int| 0 <= i < body.len() && stands_in(#[trigger] body[i], wanted);
            a_walk_over_all_takes_up(body, body.len(), f, loc, inside, wanted, i);
        },
        RubyV::Def { name, start, end, body } => {
            let inside = entered(f, w, method_scope(f, w.scopes, name), start, end);
            let i = choose|i: int| 0 <= i < body.len() && stands_in(#[trigger] body[i], wanted);
            a_walk_over_all_takes_up(body, body.len(), f, loc, inside, wanted, i);
        },
        RubyV::Call { method, call, body } => {
            translating_names(method);
            foreign_receivers(call);
            private_translates_nothing();
            let called = WalkV {
                out: with_call(f, loc, w.out, call, ctx_in(f, w.scopes)),
                ..w
            };
            let made = WalkV { scopes: made_private(w.scopes), ..w };
            let start = if method == encode_utf8("private"@) {
                made
            } else if is_t_name(method) {
                called
            } else {
                w
            };
            if translates(method) && call == wanted {
                a_scan_extends_itself(called.out);
                assert(extends(
                    with_call(f, loc, w.out, wanted, ctx_in(f, w.scopes)),
                    called.out,
                ));
                a_walk_over_all_extends(body, body.len(), f, loc, called);
                taken_up_stays(
                    f,
                    loc,
                    wanted,
                    called.out,
                    visited_all(body, body.len(), f, loc, called).out,
                );
            } else {
                let i = choose|i: int| 0 <= i < body.len() && stands_in(#[trigger] body[i], wanted);
                a_walk_over_all_takes_up(body, body.len(), f, loc, start, wanted, i);
            }
        },
    }
}

proof fn private_translates_nothing()
    ensures
        !is_t_name(encode_utf8("private"@)),
{
    reveal_strlit("private");
    reveal_strlit("t");
    reveal_strlit("t!");
    reveal_strlit("translate");
    reveal_strlit("translate!");
    if is_t_name(encode_utf8("private"@)) {
        let name = if encode_utf8("private"@) == encode_utf8("t"@) {
            "t"@
        } else if encode_utf8("private"@) == encode_utf8("t!"@) {
            "t!"@
        } else if encode_utf8("private"@) == encode_utf8("translate"@) {
            "translate"@
        } else {
            "translate!"@
        };
        vstd::utf8::encode_utf8_decode_utf8(name);
        vstd::utf8::encode_utf8_decode_utf8("private"@);
        assert(name[0] == 't');
    }
}

proof fn a_walk_over_all_takes_up(
    nodes: Seq<RubyV>,
    n: nat,
    f: FactsV,
    loc: LocatorV,
    w: WalkV,
    wanted: CallSiteV,
    i: int,
)
    requires
        0 <= i < n <= nodes.len(),
        stands_in(nodes[i], wanted),
    ensures
        is_taken_up(f, loc, wanted, visited_all(nodes, n, f, loc, w).out),
    decreases nodes, n,
{
    let before = visited_all(nodes, (n - 1) as nat, f, loc, w);
    if i == n - 1 {
        a_walk_takes_up(nodes[n - 1], f, loc, before, wanted);
    } else {
        a_walk_over_all_takes_up(nodes, (n - 1) as nat, f, loc, w, wanted, i);
        a_walk_extends(nodes[n - 1], f, loc, before);
        taken_up_stays(
            f,
            loc,
            wanted,
            before.out,
            visited(nodes[n - 1], f, loc, before).out,
        );
    }
}

// -------------------------------------------------------------------- arguments

/// The first argument of the call is the expression, and no keyword sets a
/// scope.
pub open spec fn starts_with(call: CallSiteV, first: ExprV) -> bool {
    &&& call.arguments.len() > 0
    &&& call.arguments[0] == first
    &&& !(first is Keywords)
    &&& forall|i: int| 0 <= i < call.arguments.len() ==> !(#[trigger] call.arguments[i] is Keywords)
}

proof fn the_first_argument_counts(v: Seq<ExprV>, n: nat)
    requires
        0 < n <= v.len(),
        forall|i: int| 0 <= i < v.len() ==> !(#[trigger] v[i] is Keywords),
    ensures
        positional_upto(v, n).len() == n,
        positional_upto(v, n)[0] == reduced(v[0]),
        keywords_upto(v, n) == Seq::<(Seq<char>, ArgV)>::empty(),
    decreases n,
{
    assert(!(v[n - 1] is Keywords));
    assert(keywords_upto(v, 0) =~= Seq::empty());
    assert(positional_upto(v, 0) =~= Seq::empty());
    if n > 1 {
        the_first_argument_counts(v, (n - 1) as nat);
    }
}

// ------------------------------------------------------------------------- laws

/// A call with a literal key that does not start with a dot is found under that
/// key, wherever in the file it stands.
pub proof fn a_literal_key_is_found_wherever_it_is_called(
    program: Seq<RubyV>,
    comments: Seq<CommentV>,
    f: FactsV,
    loc: LocatorV,
    call: CallSiteV,
    key: Seq<char>,
)
    requires
        stands_among(program, call),
        !has_foreign_receiver(call),
        starts_with(call, ExprV::Str(key)) || starts_with(call, ExprV::Sym(key)),
        key.len() > 0 ==> key[0] != '.',
    ensures
        exists|i: int|
            0 <= i < ruby_scan(program, comments, f, loc).keys.len() && (
            #[trigger] ruby_scan(program, comments, f, loc).keys[i]).0 == joined_key(seq![key])
                && ruby_scan(program, comments, f, loc).keys[i].1.raw_key == key
                && ruby_scan(program, comments, f, loc).keys[i].1.snippet == call.snippet
                && stands_at(ruby_scan(program, comments, f, loc).keys[i].1, f, loc, call),
{
    let start = WalkV { scopes: Seq::empty(), ranges: Seq::empty(), out: nothing_found() };
    let w = visited_all(program, program.len(), f, loc, start);
    let all = ruby_scan(program, comments, f, loc);
    let at = choose|i: int| 0 <= i < program.len() && stands_in(#[trigger] program[i], call);
    a_walk_over_all_takes_up(program, program.len(), f, loc, start, call, at);
    let (before, ctx) = choose|before: FileScanV, ctx: CallCtxV|
        extends(#[trigger] with_call(f, loc, before, call, ctx), w.out);
    foreign_receivers(call);
    the_first_argument_counts(call.arguments, call.arguments.len());
    no_dot_in_front(key);
    let now = with_call(f, loc, before, call, ctx);
    let i = before.keys.len() as int;
    assert(now.keys[i].0 == joined_key(seq![key]));
    assert(w.out.keys.subrange(0, now.keys.len() as int)[i] == w.out.keys[i]);
    assert(all.keys[i] == w.out.keys[i]);
}

proof fn no_dot_in_front(key: Seq<char>)
    requires
        key.len() > 0 ==> key[0] != '.',
    ensures
        without_prefix(key, "."@) is None,
{
    reveal_strlit(".");
    if "."@.is_prefix_of(key) {
        assert(key.subrange(0, 1)[0] == key[0]);
    }
}

/// A call with an interpolated key that does not start with a dot is found as
/// a pattern, or counts as unknown where the pattern has no static part.
pub proof fn an_interpolated_key_is_found_as_a_pattern(
    program: Seq<RubyV>,
    comments: Seq<CommentV>,
    f: FactsV,
    loc: LocatorV,
    call: CallSiteV,
    parts: Seq<ExprV>,
)
    requires
        stands_among(program, call),
        !has_foreign_receiver(call),
        starts_with(call, ExprV::InterpolatedStr(parts)),
        ({
            let pattern = crate::scan::ruby::args::parts_pattern(parts, parts.len());
            &&& pattern.len() > 0 ==> pattern[0] != '.'
            &&& !all_wildcard(joined_key(seq![pattern]))
        }),
    ensures
        exists|i: int|
            0 <= i < ruby_scan(program, comments, f, loc).patterns.len() && (
            #[trigger] ruby_scan(program, comments, f, loc).patterns[i]).0 == joined_key(
                seq![crate::scan::ruby::args::parts_pattern(parts, parts.len())],
            ) && ruby_scan(program, comments, f, loc).patterns[i].1.snippet == call.snippet
                && stands_at(ruby_scan(program, comments, f, loc).patterns[i].1, f, loc, call),
{
    let pattern = crate::scan::ruby::args::parts_pattern(parts, parts.len());
    let start = WalkV { scopes: Seq::empty(), ranges: Seq::empty(), out: nothing_found() };
    let w = visited_all(program, program.len(), f, loc, start);
    let all = ruby_scan(program, comments, f, loc);
    let at = choose|i: int| 0 <= i < program.len() && stands_in(#[trigger] program[i], call);
    a_walk_over_all_takes_up(program, program.len(), f, loc, start, call, at);
    let (before, ctx) = choose|before: FileScanV, ctx: CallCtxV|
        extends(#[trigger] with_call(f, loc, before, call, ctx), w.out);
    foreign_receivers(call);
    the_first_argument_counts(call.arguments, call.arguments.len());
    no_dot_in_front(pattern);
    let now = with_call(f, loc, before, call, ctx);
    let i = before.patterns.len() as int;
    assert(now.patterns[i].0 == joined_key(seq![pattern]));
    assert(w.out.patterns.subrange(0, now.patterns.len() as int)[i] == w.out.patterns[i]);
    assert(all.patterns[i] == w.out.patterns[i]);
}

/// The expression is a variable, a constant, a call or the like: its value is
/// not known.
pub open spec fn is_unknown(e: ExprV) -> bool {
    e is LocalRead || e is InstanceRead || e is Const || e is ConstPath || e is Other
}

/// A call whose key is not known is reported as such, wherever it stands,
/// unless a comment in the line above it names a key.
pub proof fn an_unknown_key_is_reported(
    program: Seq<RubyV>,
    comments: Seq<CommentV>,
    f: FactsV,
    loc: LocatorV,
    call: CallSiteV,
    first: ExprV,
)
    requires
        stands_among(program, call),
        !has_foreign_receiver(call),
        starts_with(call, first),
        is_unknown(first),
    ensures
        ({
            let w = visited_all(
                program,
                program.len(),
                f,
                loc,
                WalkV { scopes: Seq::empty(), ranges: Seq::empty(), out: nothing_found() },
            );
            let line = loc.place(call.start).1;
            let covered = exists|c: int|
                0 <= c < comments.len() && loc.place((#[trigger] comments[c]).offset).1 == line - 1
                    && crate::scan::ruby::comment_found(f, loc, w.ranges, comments[c]).len() > 0;
            covered || exists|i: int|
                0 <= i < ruby_scan(program, comments, f, loc).opaque.len() && (
                #[trigger] ruby_scan(program, comments, f, loc).opaque[i]).snippet == call.snippet
                    && ruby_scan(program, comments, f, loc).opaque[i].line_num == line
        }),
{
    let start = WalkV { scopes: Seq::empty(), ranges: Seq::empty(), out: nothing_found() };
    let w = visited_all(program, program.len(), f, loc, start);
    let all = ruby_scan(program, comments, f, loc);
    let at = choose|i: int| 0 <= i < program.len() && stands_in(#[trigger] program[i], call);
    a_walk_over_all_takes_up(program, program.len(), f, loc, start, call, at);
    let (before, ctx) = choose|before: FileScanV, ctx: CallCtxV|
        extends(#[trigger] with_call(f, loc, before, call, ctx), w.out);
    foreign_receivers(call);
    the_first_argument_counts(call.arguments, call.arguments.len());
    let now = with_call(f, loc, before, call, ctx);
    let i = before.opaque.len() as int;
    assert(now.opaque[i].snippet == call.snippet);
    assert(w.out.opaque.subrange(0, now.opaque.len() as int)[i] == w.out.opaque[i]);
    let n = comments.len() as int;
    let lines = covering_lines(f, loc, w.ranges, comments, n);
    let line = loc.place(call.start).1;
    assert(w.out.opaque[i].line_num == line);
    lines_that_cover(f, loc, w.ranges, comments, n, line - 1);
    uncovered_calls_stay(w.out.opaque, lines, w.out.opaque.len() as int, w.out.opaque[i]);
    assert(w.out.opaque.take(w.out.opaque.len() as int) =~= w.out.opaque);
    assert(w.out.opaque.contains(w.out.opaque[i]));
    if all.opaque.contains(w.out.opaque[i]) {
        let k = all.opaque.index_of(w.out.opaque[i]);
        assert(all.opaque[k].snippet == call.snippet);
    }
}

proof fn lines_that_cover(
    f: FactsV,
    loc: LocatorV,
    ranges: Seq<crate::scan::ruby::RangeV>,
    comments: Seq<CommentV>,
    n: int,
    line: int,
)
    requires
        0 <= n <= comments.len(),
    ensures
        covering_lines(f, loc, ranges, comments, n).contains(line) <==> exists|c: int|
            0 <= c < n && loc.place((#[trigger] comments[c]).offset).1 == line
                && crate::scan::ruby::comment_found(f, loc, ranges, comments[c]).len() > 0,
    decreases n,
{
    if n > 0 {
        lines_that_cover(f, loc, ranges, comments, n - 1, line);
        let before = covering_lines(f, loc, ranges, comments, n - 1);
        let now = covering_lines(f, loc, ranges, comments, n);
        let last = loc.place(comments[n - 1].offset).1;
        if now.len() > before.len() {
            assert(now[before.len() as int] == last);
            if before.contains(line) {
                assert(now[before.index_of(line)] == line);
            }
            if now.contains(line) && line != last {
                assert(before[now.index_of(line)] == line);
            }
        }
    }
}

/// A call with an unknown key stays exactly where no line above it is covered.
pub proof fn uncovered_calls_stay(
    opaque: Seq<OccurrenceV>,
    lines: Seq<int>,
    n: int,
    occ: OccurrenceV,
)
    requires
        0 <= n <= opaque.len(),
    ensures
        uncovered(opaque, lines, n).contains(occ) <==> opaque.take(n).contains(occ)
            && !lines.contains(occ.line_num - 1),
    decreases n,
{
    if n > 0 {
        uncovered_calls_stay(opaque, lines, n - 1, occ);
        let before = uncovered(opaque, lines, n - 1);
        let now = uncovered(opaque, lines, n);
        let last = opaque[n - 1];
        let a = opaque.take(n - 1);
        let b = opaque.take(n);
        assert(b =~= a.push(last));
        if a.contains(occ) {
            assert(b[a.index_of(occ)] == occ);
        }
        assert(b[n - 1] == last);
        if b.contains(occ) && occ != last {
            assert(a[b.index_of(occ)] == occ);
        }
        if now.len() > before.len() {
            assert(now[before.len() as int] == last);
            if before.contains(occ) {
                assert(now[before.index_of(occ)] == occ);
            }
            if now.contains(occ) && occ != last {
                assert(before[now.index_of(occ)] == occ);
            }
        }
    }
}

} // verus!
