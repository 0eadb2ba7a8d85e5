//! Where what a scan finds stands: in the file that was scanned, at a place of
//! it.
use crate::lineindex::{line_begin_of, line_number_of, packed};
use crate::scan::erb::{copies, is_copy, BufferV};
use crate::scan::ruby::key::CallCtxV;
use crate::scan::ruby::magic::{t_calls_in, ExtractedV};
use crate::scan::ruby::nodes::{constant_names, CallSiteV, RubyV};
use crate::scan::ruby::{
    class_scope, comment_ctx, comment_found, comments_found, covering_lines, ctx_in, entered,
    facts_of, made_private, magic_found, method_scope, module_scope, ruby_scan, uncovered, visited,
    visited_all, with_call, CommentV, FactsV, RangeV, WalkV,
};
use crate::scan::template::TemplateV;
use crate::scan::{
    erb_found, nothing_found, ruby_found, started, translated, FileScanV, LocatorV, OccurrenceV,
    ParsedV, ScanConfigV, SegV,
};
use vstd::prelude::*;
use vstd::utf8::decode_utf8;

verus! {

/// The occurrence stands in the file, at a place of it.
pub open spec fn is_located(o: OccurrenceV, path: Seq<char>, bytes: Seq<u8>) -> bool {
    &&& o.path == path
    &&& 0 <= o.pos <= bytes.len()
    &&& o.line_num == line_number_of(bytes, o.pos)
    &&& o.line_pos == o.pos - line_begin_of(bytes, o.pos)
}

/// Every occurrence stands in the file, at a place of it.
pub open spec fn all_located(out: FileScanV, path: Seq<char>, bytes: Seq<u8>) -> bool {
    &&& forall|i: int| 0 <= i < out.keys.len() ==> is_located((#[trigger] out.keys[i]).1, path, bytes)
    &&& forall|i: int|
        0 <= i < out.patterns.len() ==> is_located((#[trigger] out.patterns[i]).1, path, bytes)
    &&& forall|i: int| 0 <= i < out.opaque.len() ==> is_located(#[trigger] out.opaque[i], path, bytes)
}

/// The offset is one of the file.
pub open spec fn points_into(loc: LocatorV, pos: int) -> bool {
    0 <= loc.file_pos(pos) <= loc.bytes.len()
}

/// The calls of a node, and of those inside it, start in the file.
pub open spec fn node_points_into(node: RubyV, loc: LocatorV) -> bool
    decreases node, 0nat,
{
    match node {
        RubyV::Module { body, .. } => nodes_point_into(body, body.len(), loc),
        RubyV::Class { body, .. } => nodes_point_into(body, body.len(), loc),
        RubyV::Def { body, .. } => nodes_point_into(body, body.len(), loc),
        RubyV::Call { call, body, .. } => points_into(loc, call.start) && nodes_point_into(
            body,
            body.len(),
            loc,
        ),
    }
}

/// The calls of the first `n` nodes start in the file.
pub open spec fn nodes_point_into(nodes: Seq<RubyV>, n: nat, loc: LocatorV) -> bool
    decreases nodes, n,
{
    n == 0 || n > nodes.len() || nodes_point_into(nodes, (n - 1) as nat, loc) && node_points_into(
        nodes[n - 1],
        loc,
    )
}

/// The comments start in the file.
pub open spec fn comments_point_into(comments: Seq<CommentV>, loc: LocatorV) -> bool {
    forall|i: int| 0 <= i < comments.len() ==> points_into(loc, (#[trigger] comments[i]).offset)
}

proof fn a_call_is_located(
    f: FactsV,
    loc: LocatorV,
    out: FileScanV,
    call: CallSiteV,
    ctx: CallCtxV,
)
    requires
        all_located(out, f.path, loc.bytes),
        points_into(loc, call.start),
    ensures
        all_located(with_call(f, loc, out, call, ctx), f.path, loc.bytes),
{
    let after = with_call(f, loc, out, call, ctx);
    assert forall|i: int| 0 <= i < after.keys.len() implies is_located(
        (#[trigger] after.keys[i]).1,
        f.path,
        loc.bytes,
    ) by {
        if i < out.keys.len() {
            assert(after.keys[i] == out.keys[i]);
        }
    }
    assert forall|i: int| 0 <= i < after.patterns.len() implies is_located(
        (#[trigger] after.patterns[i]).1,
        f.path,
        loc.bytes,
    ) by {
        if i < out.patterns.len() {
            assert(after.patterns[i] == out.patterns[i]);
        }
    }
    assert forall|i: int| 0 <= i < after.opaque.len() implies is_located(
        #[trigger] after.opaque[i],
        f.path,
        loc.bytes,
    ) by {
        if i < out.opaque.len() {
            assert(after.opaque[i] == out.opaque[i]);
        }
    }
}

proof fn a_node_is_located(node: RubyV, f: FactsV, loc: LocatorV, w: WalkV)
    requires
        all_located(w.out, f.path, loc.bytes),
        node_points_into(node, loc),
    ensures
        all_located(visited(node, f, loc, w).out, f.path, loc.bytes),
    decreases node, 0nat,
{
    match node {
        RubyV::Module { name, start, end, body } => {
            let inside = entered(f, w, module_scope(f, w.scopes, name), start, end);
            nodes_are_located(body, body.len(), f, loc, inside);
        },
        RubyV::Class { name, constant, start, end, body } => {
            let scope = class_scope(f, w.scopes, name, constant_names(constant));
            nodes_are_located(body, body.len(), f, loc, entered(f, w, scope, start, end));
        },
        RubyV::Def { name, start, end, body } => {
            let inside = entered(f, w, method_scope(f, w.scopes, name), start, end);
            nodes_are_located(body, body.len(), f, loc, inside);
        },
        RubyV::Call { method, call, body } => {
            let ctx = ctx_in(f, w.scopes);
            a_call_is_located(f, loc, w.out, call, ctx);
            let private = WalkV { scopes: made_private(w.scopes), ..w };
            let after = WalkV { out: with_call(f, loc, w.out, call, ctx), ..w };
            nodes_are_located(body, body.len(), f, loc, private);
            nodes_are_located(body, body.len(), f, loc, after);
            nodes_are_located(body, body.len(), f, loc, w);
        },
    }
}

proof fn nodes_are_located(nodes: Seq<RubyV>, n: nat, f: FactsV, loc: LocatorV, w: WalkV)
    requires
        all_located(w.out, f.path, loc.bytes),
        nodes_point_into(nodes, n, loc),
    ensures
        all_located(visited_all(nodes, n, f, loc, w).out, f.path, loc.bytes),
    decreases nodes, n,
{
    if 0 < n <= nodes.len() {
        nodes_are_located(nodes, (n - 1) as nat, f, loc, w);
        let before = visited_all(nodes, (n - 1) as nat, f, loc, w);
        a_node_is_located(nodes[n - 1], f, loc, before);
    }
}

/// The keys stand in the file.
spec fn keys_located(
    keys: Seq<(Seq<char>, OccurrenceV)>,
    path: Seq<char>,
    bytes: Seq<u8>,
) -> bool {
    forall|i: int| 0 <= i < keys.len() ==> is_located((#[trigger] keys[i]).1, path, bytes)
}

proof fn a_comment_is_located(
    f: FactsV,
    loc: LocatorV,
    offset: int,
    text: Seq<char>,
    ctx: CallCtxV,
    calls: Seq<ExtractedV>,
    n: int,
)
    requires
        0 <= n <= calls.len(),
        points_into(loc, offset),
    ensures
        keys_located(magic_found(f, loc, offset, text, ctx, calls, n), f.path, loc.bytes),
    decreases n,
{
    if n > 0 {
        a_comment_is_located(f, loc, offset, text, ctx, calls, n - 1);
    }
}

proof fn comments_are_located(
    f: FactsV,
    loc: LocatorV,
    ranges: Seq<RangeV>,
    comments: Seq<CommentV>,
    n: int,
)
    requires
        0 <= n <= comments.len(),
        comments_point_into(comments, loc),
    ensures
        keys_located(comments_found(f, loc, ranges, comments, n), f.path, loc.bytes),
    decreases n,
{
    if n > 0 {
        comments_are_located(f, loc, ranges, comments, n - 1);
        let comment = comments[n - 1];
        let own = comment_found(f, loc, ranges, comment);
        if own.len() > 0 {
            let nodes = comment.nested->Some_0;
            let calls = t_calls_in(nodes, nodes.len());
            a_comment_is_located(
                f,
                loc,
                comment.offset,
                decode_utf8(comment.text),
                comment_ctx(f, ranges, comment.offset),
                calls,
                calls.len() as int,
            );
        }
    }
}

proof fn uncovered_are_located(
    opaque: Seq<OccurrenceV>,
    lines: Seq<int>,
    n: int,
    path: Seq<char>,
    bytes: Seq<u8>,
)
    requires
        0 <= n <= opaque.len(),
        forall|i: int| 0 <= i < opaque.len() ==> is_located(#[trigger] opaque[i], path, bytes),
    ensures
        forall|i: int|
            0 <= i < uncovered(opaque, lines, n).len() ==> is_located(
                #[trigger] uncovered(opaque, lines, n)[i],
                path,
                bytes,
            ),
    decreases n,
{
    if n > 0 {
        uncovered_are_located(opaque, lines, n - 1, path, bytes);
        let before = uncovered(opaque, lines, n - 1);
        let now = uncovered(opaque, lines, n);
        assert forall|i: int| 0 <= i < now.len() implies is_located(
            #[trigger] now[i],
            path,
            bytes,
        ) by {
            if i < before.len() {
                assert(now[i] == before[i]);
            } else {
                assert(now[i] == opaque[n - 1]);
            }
        }
    }
}

/// What a scan of parsed Ruby finds stands in the file, at a place of it.
pub proof fn what_a_walk_finds_is_located(
    program: Seq<RubyV>,
    comments: Seq<CommentV>,
    f: FactsV,
    loc: LocatorV,
)
    requires
        nodes_point_into(program, program.len(), loc),
        comments_point_into(comments, loc),
    ensures
        all_located(ruby_scan(program, comments, f, loc), f.path, loc.bytes),
{
    let start = WalkV { scopes: Seq::empty(), ranges: Seq::empty(), out: nothing_found() };
    nodes_are_located(program, program.len(), f, loc, start);
    let w = visited_all(program, program.len(), f, loc, start);
    let n = comments.len() as int;
    comments_are_located(f, loc, w.ranges, comments, n);
    let lines = covering_lines(f, loc, w.ranges, comments, n);
    uncovered_are_located(w.out.opaque, lines, w.out.opaque.len() as int, f.path, loc.bytes);
    let out = ruby_scan(program, comments, f, loc);
    let more = comments_found(f, loc, w.ranges, comments, n);
    assert forall|i: int| 0 <= i < out.keys.len() implies is_located(
        (#[trigger] out.keys[i]).1,
        f.path,
        loc.bytes,
    ) by {
        if i < w.out.keys.len() {
            assert(out.keys[i] == w.out.keys[i]);
        } else {
            assert(out.keys[i] == more[i - w.out.keys.len()]);
        }
    }
}

/// What is found in a Ruby file stands in it, at a place of it.
pub proof fn what_a_ruby_file_holds_is_located(
    bytes: Seq<u8>,
    path: Seq<char>,
    cfg: ScanConfigV,
    parsed: ParsedV,
)
    requires
        ({
            let loc = LocatorV { bytes, map: None };
            &&& nodes_point_into(parsed.program, parsed.program.len(), loc)
            &&& comments_point_into(parsed.comments, loc)
        }),
    ensures
        all_located(ruby_found(bytes, path, cfg, parsed), path, bytes),
{
    let loc = LocatorV { bytes, map: None };
    what_a_walk_finds_is_located(parsed.program, parsed.comments, facts_of(path, cfg), loc);
}

proof fn started_in_range(segs: Seq<SegV>, n: int, pos: int)
    requires
        0 <= n <= segs.len(),
    ensures
        0 <= started(segs, n, pos) <= n,
        started(segs, n, pos) > 0 ==> segs[started(segs, n, pos) - 1].0 <= pos,
    decreases n,
{
    if n > 0 && segs[n - 1].0 > pos {
        started_in_range(segs, n - 1, pos);
    }
}

/// Every offset of a buffer that was copied from a file is translated to an
/// offset of the file.
pub proof fn a_buffer_offset_points_into_the_file(b: BufferV, bytes: Seq<u8>, pos: int)
    requires
        copies(b, bytes),
        b.segs.len() > 0,
        bytes.len() <= usize::MAX,
    ensures
        points_into(LocatorV { bytes, map: Some(b.segs) }, pos),
{
    let at = packed(pos);
    let n = b.segs.len() as int;
    started_in_range(b.segs, n, at);
    let i = started(b.segs, n, at);
    if i == 0 {
        assert(is_copy(b, bytes, b.segs[0]));
    } else {
        assert(is_copy(b, bytes, b.segs[i - 1]));
        if i < n {
            assert(is_copy(b, bytes, b.segs[i]));
        }
    }
}

proof fn nodes_of_a_buffer_point_into_the_file(
    nodes: Seq<RubyV>,
    n: nat,
    b: BufferV,
    bytes: Seq<u8>,
)
    requires
        copies(b, bytes),
        b.segs.len() > 0,
        bytes.len() <= usize::MAX,
    ensures
        nodes_point_into(nodes, n, LocatorV { bytes, map: Some(b.segs) }),
    decreases nodes, n,
{
    if 0 < n <= nodes.len() {
        nodes_of_a_buffer_point_into_the_file(nodes, (n - 1) as nat, b, bytes);
        match nodes[n - 1] {
            RubyV::Module { body, .. } => {
                nodes_of_a_buffer_point_into_the_file(body, body.len(), b, bytes);
            },
            RubyV::Class { body, .. } => {
                nodes_of_a_buffer_point_into_the_file(body, body.len(), b, bytes);
            },
            RubyV::Def { body, .. } => {
                nodes_of_a_buffer_point_into_the_file(body, body.len(), b, bytes);
            },
            RubyV::Call { call, body, .. } => {
                a_buffer_offset_points_into_the_file(b, bytes, call.start);
                nodes_of_a_buffer_point_into_the_file(body, body.len(), b, bytes);
            },
        }
        assert(node_points_into(nodes[n - 1], LocatorV { bytes, map: Some(b.segs) }));
    }
}

/// What is found in an ERB file stands in the file, at a place of it, although
/// its tags were copied into a buffer.
pub proof fn what_an_erb_file_holds_is_located(
    bytes: Seq<u8>,
    path: Seq<char>,
    cfg: ScanConfigV,
    b: BufferV,
    parsed: ParsedV,
)
    requires
        copies(b, bytes),
        b.segs.len() > 0,
        bytes.len() <= usize::MAX,
    ensures
        all_located(erb_found(bytes, path, cfg, b.segs, parsed), path, bytes),
{
    let loc = LocatorV { bytes, map: Some(b.segs) };
    nodes_of_a_buffer_point_into_the_file(parsed.program, parsed.program.len(), b, bytes);
    assert forall|i: int| 0 <= i < parsed.comments.len() implies points_into(
        loc,
        (#[trigger] parsed.comments[i]).offset,
    ) by {
        a_buffer_offset_points_into_the_file(b, bytes, parsed.comments[i].offset);
    }
    what_a_walk_finds_is_located(parsed.program, parsed.comments, facts_of(path, cfg), loc);
}

/// What a match in a template adds stands in the file, at a place of it.
pub(crate) proof fn a_match_is_located(
    t: TemplateV,
    out: FileScanV,
    groups: Seq<Option<(int, int)>>,
    call_pos: int,
)
    requires
        all_located(out, t.path, t.bytes),
        0 <= call_pos <= t.bytes.len(),
    ensures
        all_located(t.with_match(out, groups, call_pos), t.path, t.bytes),
{
    let after = t.with_match(out, groups, call_pos);
    assert forall|i: int| 0 <= i < after.keys.len() implies is_located(
        (#[trigger] after.keys[i]).1,
        t.path,
        t.bytes,
    ) by {
        if i < out.keys.len() {
            assert(after.keys[i] == out.keys[i]);
        }
    }
    assert forall|i: int| 0 <= i < after.patterns.len() implies is_located(
        (#[trigger] after.patterns[i]).1,
        t.path,
        t.bytes,
    ) by {
        if i < out.patterns.len() {
            assert(after.patterns[i] == out.patterns[i]);
        }
    }
    assert forall|i: int| 0 <= i < after.opaque.len() implies is_located(
        #[trigger] after.opaque[i],
        t.path,
        t.bytes,
    ) by {
        if i < out.opaque.len() {
            assert(after.opaque[i] == out.opaque[i]);
        }
    }
}

} // verus!
