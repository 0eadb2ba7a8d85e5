//! The ERB scanner.
//!
//! Every code tag of a file is copied into one Ruby buffer, which is parsed
//! once. A block that spans two tags stays whole in it. Positions in the buffer
//! are translated back to the file.
use crate::lineindex::{packed, LineIndex};
use crate::regexes::{
    all_groups, captures_all, compile, compiles, group, group_at, span_lists, spans, within_bytes,
};
use crate::scan::ruby::nodes::{ruby_model, RubyNode};
use crate::scan::ruby::{comments_model, facts_of, ruby_scan, scan_synthetic, Comment};
use crate::scan::{nothing_found, FileScan, LocatorV, ScanConfig, SegV, SourceMap};
use vstd::prelude::*;

verus! {

/// A tag: its indicator, its code, and what closes it.
pub const TAG_SOURCE: &'static str = "(?s)<%(={1,2}|-|#-?|%)?(.*?)([-=])?%>";

/// A Ruby buffer, and where its parts come from.
pub struct BufferV {
    pub buf: Seq<u8>,
    pub segs: Seq<SegV>,
}

/// ASCII white space.
pub open spec fn is_blank_byte(b: u8) -> bool {
    b == 32 || b == 9 || b == 10 || b == 12 || b == 13
}

/// Nothing but ASCII white space.
pub open spec fn all_blank(s: Seq<u8>) -> bool {
    forall|i: int| 0 <= i < s.len() ==> is_blank_byte(#[trigger] s[i])
}

/// Where the line at `i` ends, its line break included.
pub open spec fn byte_line_end(s: Seq<u8>, i: int) -> int
    decreases s.len() - i,
{
    if i < 0 || i >= s.len() {
        s.len() as int
    } else if s[i] == 10 {
        i + 1
    } else {
        byte_line_end(s, i + 1)
    }
}

/// Where the text of a line ends: before `\n`, and before a `\r` in front of
/// it.
pub open spec fn line_text_end(s: Seq<u8>, from: int, to: int) -> int {
    let a = if from < to && s[to - 1] == 10 {
        to - 1
    } else {
        to
    };
    if from < a && s[a - 1] == 13 {
        a - 1
    } else {
        a
    }
}

/// The buffer with the lines of a comment from `i` on, each as a comment of its
/// own.
pub open spec fn with_comment(b: BufferV, code: Seq<u8>, file_start: int, i: int) -> BufferV
    decreases code.len() - i,
{
    if i < 0 || i >= code.len() {
        b
    } else {
        let end = byte_line_end(code, i);
        let text = code.subrange(i, line_text_end(code, i, end));
        let after = if all_blank(text) {
            b
        } else {
            BufferV {
                buf: b.buf + seq![35u8] + text + seq![10u8],
                segs: b.segs.push(
                    (packed(b.buf.len() as int + 1), packed(text.len() as int), packed(file_start + i)),
                ),
            }
        };
        if end <= i || end > code.len() {
            after
        } else {
            with_comment(after, code, file_start, end)
        }
    }
}

/// The buffer with one tag: code is copied, a comment becomes Ruby comments,
/// and a literal `<%` or an empty tag adds nothing.
pub open spec fn with_tag(b: BufferV, bytes: Seq<u8>, tag: Seq<Option<(int, int)>>) -> BufferV {
    match group(tag, 2) {
        None => b,
        Some((from, to)) => {
            let code = bytes.subrange(from, to);
            let indicator = match group(tag, 1) {
                Some((a, z)) => if a < z {
                    Some(bytes[a])
                } else {
                    None
                },
                None => None,
            };
            if all_blank(code) {
                b
            } else {
                match indicator {
                    None => with_code(b, code, from),
                    Some(c) => if c == 61 || c == 45 {
                        with_code(b, code, from)
                    } else if c == 35 {
                        with_comment(b, code, from, 0)
                    } else {
                        b
                    },
                }
            }
        },
    }
}

/// The buffer with a piece of code.
pub open spec fn with_code(b: BufferV, code: Seq<u8>, from: int) -> BufferV {
    BufferV {
        buf: b.buf + code + seq![10u8],
        segs: b.segs.push(
            (packed(b.buf.len() as int), packed(code.len() as int), packed(from)),
        ),
    }
}

/// The buffer of the first `n` tags.
pub open spec fn buffer_upto(bytes: Seq<u8>, tags: Seq<Seq<Option<(int, int)>>>, n: int) -> BufferV
    decreases n,
{
    if n <= 0 {
        BufferV { buf: Seq::empty(), segs: Seq::empty() }
    } else {
        with_tag(buffer_upto(bytes, tags, n - 1), bytes, tags[n - 1])
    }
}

fn blank(s: &[u8]) -> (b: bool)
    ensures
        b == all_blank(s@),
{
    let mut i: usize = 0;
    while i < s.len()
        invariant
            i <= s.len(),
            forall|j: int| 0 <= j < i ==> is_blank_byte(#[trigger] s@[j]),
        decreases s.len() - i,
    {
        let b = s[i];
        if !(b == 32 || b == 9 || b == 10 || b == 12 || b == 13) {
            assert(!is_blank_byte(s@[i as int]));
            return false;
        }
        i = i + 1;
    }
    true
}

fn extend_bytes(buf: &mut Vec<u8>, more: &[u8])
    ensures
        final(buf)@ == old(buf)@ + more@,
{
    let ghost start = buf@;
    let mut i: usize = 0;
    assert(buf@ =~= start + more@.take(0));
    while i < more.len()
        invariant
            i <= more.len(),
            buf@ == start + more@.take(i as int),
        decreases more.len() - i,
    {
        buf.push(more[i]);
        i = i + 1;
        assert(more@.take(i as int) =~= more@.take(i - 1).push(more@[i - 1]));
        assert(buf@ =~= start + more@.take(i as int));
    }
    assert(more@.take(more@.len() as int) =~= more@);
}

proof fn line_end_in_range(s: Seq<u8>, i: int)
    requires
        0 <= i < s.len(),
    ensures
        i < byte_line_end(s, i) <= s.len(),
    decreases s.len() - i,
{
    if s[i] != 10 && i + 1 < s.len() {
        line_end_in_range(s, i + 1);
    } else if s[i] != 10 {
        assert(byte_line_end(s, i + 1) == s.len());
    }
}

fn push_comment(buf: &mut Vec<u8>, map: &mut SourceMap, bytes: &[u8], from: usize, to: usize)
    requires
        from <= to <= bytes.len(),
    ensures
        (BufferV { buf: final(buf)@, segs: final(map)@ }) == with_comment(
            BufferV { buf: old(buf)@, segs: old(map)@ },
            bytes@.subrange(from as int, to as int),
            from as int,
            0,
        ),
{
    let code = vstd::slice::slice_subrange(bytes, from, to);
    let length = code.len();
    let ghost start = BufferV { buf: buf@, segs: map@ };
    let mut i: usize = 0;
    while i < length
        invariant
            i <= length == code.len(),
            from + length <= bytes.len(),
            with_comment(BufferV { buf: buf@, segs: map@ }, code@, from as int, i as int)
                == with_comment(start, code@, from as int, 0),
        decreases length - i,
    {
        let ghost before = BufferV { buf: buf@, segs: map@ };
        let mut end: usize = i;
        while end < length && code[end] != 10
            invariant
                i <= end <= length == code.len(),
                byte_line_end(code@, end as int) == byte_line_end(code@, i as int),
            decreases length - end,
        {
            end = end + 1;
        }
        if end < length {
            end = end + 1;
        }
        proof {
            line_end_in_range(code@, i as int);
        }
        let mut last: usize = end;
        if i < last && code[last - 1] == 10 {
            last = last - 1;
        }
        if i < last && code[last - 1] == 13 {
            last = last - 1;
        }
        let text = vstd::slice::slice_subrange(code, i, last);
        if !blank(text) {
            buf.push(35);
            let at = buf.len();
            map.push(at, text.len(), from + i);
            extend_bytes(buf, text);
            buf.push(10);
            assert(buf@ =~= before.buf + seq![35u8] + text@ + seq![10u8]);
        }
        i = end;
    }
}

/// Copies the code of tags into one Ruby buffer, with a map back to the file.
/// `tags` holds what the groups of each match of [`TAG_SOURCE`] stand for.
pub fn buffer_of_tags(bytes: &[u8], tags: &Vec<Vec<Option<(usize, usize)>>>) -> (r: (
    Vec<u8>,
    SourceMap,
))
    requires
        forall|i: int|
            0 <= i < tags.len() ==> within_bytes(
                #[trigger] span_lists(tags@)[i],
                bytes@.len() as int,
            ),
    ensures
        (BufferV { buf: r.0@, segs: r.1@ }) == buffer_upto(
            bytes@,
            span_lists(tags@),
            tags.len() as int,
        ),
{
    let ghost model = span_lists(tags@);
    let mut buf: Vec<u8> = Vec::new();
    let mut map = SourceMap::default();
    let mut i: usize = 0;
    assert(buf@ =~= Seq::empty());
    while i < tags.len()
        invariant
            i <= tags.len(),
            model == span_lists(tags@),
            forall|k: int|
                0 <= k < tags.len() ==> within_bytes(#[trigger] model[k], bytes@.len() as int),
            (BufferV { buf: buf@, segs: map@ }) == buffer_upto(bytes@, model, i as int),
        decreases tags.len() - i,
    {
        let tag = &tags[i];
        assert(model[i as int] == spans(tag@));
        assert(within_bytes(model[i as int], bytes@.len() as int));
        let ghost before = BufferV { buf: buf@, segs: map@ };
        if let Some((from, to)) = group_at(tag, 2) {
            assert(spans(tag@)[2] is Some);
            let code = vstd::slice::slice_subrange(bytes, from, to);
            if !blank(code) {
                let indicator = match group_at(tag, 1) {
                    Some((a, z)) => {
                        assert(spans(tag@)[1] is Some);
                        if a < z {
                            Some(bytes[a])
                        } else {
                            None
                        }
                    },
                    None => None,
                };
                let is_code = match indicator {
                    None => true,
                    Some(c) => c == 61 || c == 45,
                };
                let is_comment = match indicator {
                    None => false,
                    Some(c) => c == 35,
                };
                if is_code {
                    map.push(buf.len(), code.len(), from);
                    extend_bytes(&mut buf, code);
                    buf.push(10);
                    assert(buf@ =~= before.buf + code@ + seq![10u8]);
                } else if is_comment {
                    push_comment(&mut buf, &mut map, bytes, from, to);
                }
            }
        }
        i = i + 1;
    }
    (buf, map)
}

/// The tags of a file.
pub open spec fn tags_of(bytes: Seq<u8>) -> Seq<Seq<Option<(int, int)>>> {
    all_groups(TAG_SOURCE@, bytes)
}

/// One Ruby buffer for the whole file, with a map back to the file. A code tag
/// is copied as it is. A comment tag becomes a run of Ruby comments, so that a
/// magic comment in it is seen. `None` where [`TAG_SOURCE`] does not compile.
pub fn build_buffer(bytes: &[u8]) -> (r: Option<(Vec<u8>, SourceMap)>)
    ensures
        match r {
            Some((buf, map)) => compiles(TAG_SOURCE@) && (BufferV { buf: buf@, segs: map@ })
                == buffer_upto(bytes@, tags_of(bytes@), tags_of(bytes@).len() as int),
            None => !compiles(TAG_SOURCE@),
        },
        r matches Some((buf, map)) ==> {
            &&& buf.len() > 0 ==> map@.len() > 0
            &&& bytes@.len() <= u32::MAX && buf.len() <= u32::MAX ==> copies(
                BufferV { buf: buf@, segs: map@ },
                bytes@,
            )
        },
{
    match compile(TAG_SOURCE) {
        Some(re) => {
            let tags = captures_all(&re, bytes);
            assert(span_lists(tags@).len() == tags.len());
            let built = buffer_of_tags(bytes, &tags);
            proof {
                let model = span_lists(tags@);
                code_is_mapped(bytes@, model, model.len() as int);
                if bytes@.len() <= u32::MAX && built.0.len() <= u32::MAX {
                    the_buffer_is_copied_from_the_file(bytes@, model, model.len() as int);
                }
            }
            Some(built)
        },
        None => None,
    }
}

/// Scans an ERB file. `buffer` and `map` are its Ruby buffer, and `program` and
/// `comments` what the buffer parses to.
pub fn scan(
    bytes: &[u8],
    buffer: &Vec<u8>,
    map: &SourceMap,
    program: &Vec<RubyNode>,
    comments: &Vec<Comment>,
    path: &str,
    cfg: &ScanConfig,
) -> (out: FileScan)
    ensures
        out@ == if buffer.len() == 0 {
            nothing_found()
        } else {
            ruby_scan(
                ruby_model(program@),
                comments_model(comments@),
                facts_of(path@, cfg@),
                LocatorV { bytes: bytes@, map: Some(map@) },
            )
        },
{
    if buffer.len() == 0 {
        return FileScan::default();
    }
    let index = LineIndex::new(bytes);
    scan_synthetic(program, comments, path, cfg, &index, map)
}

// -------------------------------------------------------------------------- laws

/// The stretch of the buffer that a segment stands for is a copy of the stretch
/// of the file that it names.
pub open spec fn is_copy(b: BufferV, bytes: Seq<u8>, seg: SegV) -> bool {
    &&& 0 <= seg.0 && 0 <= seg.1 && 0 <= seg.2
    &&& seg.0 + seg.1 <= b.buf.len()
    &&& seg.2 + seg.1 <= bytes.len()
    &&& b.buf.subrange(seg.0, seg.0 + seg.1) == bytes.subrange(seg.2, seg.2 + seg.1)
}

/// Every segment of the buffer stands for a copy.
pub open spec fn copies(b: BufferV, bytes: Seq<u8>) -> bool {
    forall|k: int| 0 <= k < b.segs.len() ==> is_copy(b, bytes, #[trigger] b.segs[k])
}

/// What a buffer held it still holds when more comes behind it.
proof fn copies_stay(b: BufferV, more: BufferV, bytes: Seq<u8>)
    requires
        copies(b, bytes),
        b.buf.is_prefix_of(more.buf),
    ensures
        forall|k: int| 0 <= k < b.segs.len() ==> is_copy(more, bytes, #[trigger] b.segs[k]),
{
    assert forall|k: int| 0 <= k < b.segs.len() implies is_copy(
        more,
        bytes,
        #[trigger] b.segs[k],
    ) by {
        let seg = b.segs[k];
        assert(is_copy(b, bytes, seg));
        assert forall|i: int| 0 <= i < b.buf.len() implies #[trigger] more.buf[i] == b.buf[i] by {
            assert(more.buf.subrange(0, b.buf.len() as int)[i] == more.buf[i]);
        }
        assert(more.buf.subrange(seg.0, seg.0 + seg.1) =~= b.buf.subrange(
            seg.0,
            seg.0 + seg.1,
        ));
    }
}

proof fn comment_copies(b: BufferV, bytes: Seq<u8>, from: int, to: int, i: int)
    requires
        copies(b, bytes),
        0 <= from <= to <= bytes.len() <= u32::MAX,
        0 <= i,
    ensures
        b.buf.is_prefix_of(with_comment(b, bytes.subrange(from, to), from, i).buf),
        with_comment(b, bytes.subrange(from, to), from, i).buf.len() <= u32::MAX ==> copies(
            with_comment(b, bytes.subrange(from, to), from, i),
            bytes,
        ),
    decreases to - from - i,
{
    let code = bytes.subrange(from, to);
    let all = with_comment(b, code, from, i);
    if i < code.len() {
        line_end_in_range(code, i);
        let end = byte_line_end(code, i);
        let last = line_text_end(code, i, end);
        let text = code.subrange(i, last);
        let after = if all_blank(text) {
            b
        } else {
            BufferV {
                buf: b.buf + seq![35u8] + text + seq![10u8],
                segs: b.segs.push(
                    (
                        packed(b.buf.len() as int + 1),
                        packed(text.len() as int),
                        packed(from + i),
                    ),
                ),
            }
        };
        assert(b.buf.is_prefix_of(after.buf)) by {
            assert(after.buf.subrange(0, b.buf.len() as int) =~= b.buf);
        }
        if after.buf.len() <= u32::MAX {
            copies_stay(b, after, bytes);
            if !all_blank(text) {
                let seg = after.segs.last();
                assert(after.buf.subrange(seg.0, seg.0 + seg.1) =~= bytes.subrange(
                    seg.2,
                    seg.2 + seg.1,
                ));
                assert(is_copy(after, bytes, seg));
            }
            assert(copies(after, bytes));
            comment_copies(after, bytes, from, to, end);
            prefix_of_prefix(b.buf, after.buf, all.buf);
        } else {
            comment_grows(after, code, from, end);
            prefix_of_prefix(b.buf, after.buf, all.buf);
        }
    } else {
        assert(b.buf.subrange(0, b.buf.len() as int) =~= b.buf);
    }
}

proof fn prefix_of_prefix(a: Seq<u8>, b: Seq<u8>, c: Seq<u8>)
    requires
        a.is_prefix_of(b),
        b.is_prefix_of(c),
    ensures
        a.is_prefix_of(c),
{
    assert(c.subrange(0, a.len() as int) =~= a) by {
        assert forall|i: int| 0 <= i < a.len() implies c[i] == a[i] by {
            assert(c.subrange(0, b.len() as int)[i] == c[i]);
            assert(b.subrange(0, a.len() as int)[i] == b[i]);
        }
    }
}

proof fn comment_grows(b: BufferV, code: Seq<u8>, from: int, i: int)
    requires
        0 <= i,
    ensures
        b.buf.is_prefix_of(with_comment(b, code, from, i).buf),
    decreases code.len() - i,
{
    if i < code.len() {
        line_end_in_range(code, i);
        let end = byte_line_end(code, i);
        let text = code.subrange(i, line_text_end(code, i, end));
        let after = if all_blank(text) {
            b
        } else {
            BufferV {
                buf: b.buf + seq![35u8] + text + seq![10u8],
                segs: b.segs.push(
                    (
                        packed(b.buf.len() as int + 1),
                        packed(text.len() as int),
                        packed(from + i),
                    ),
                ),
            }
        };
        assert(after.buf.subrange(0, b.buf.len() as int) =~= b.buf);
        comment_grows(after, code, from, end);
        prefix_of_prefix(b.buf, after.buf, with_comment(b, code, from, i).buf);
    } else {
        assert(b.buf.subrange(0, b.buf.len() as int) =~= b.buf);
    }
}

proof fn tag_grows(b: BufferV, bytes: Seq<u8>, tag: Seq<Option<(int, int)>>)
    ensures
        b.buf.is_prefix_of(with_tag(b, bytes, tag).buf),
{
    let after = with_tag(b, bytes, tag);
    assert(b.buf.subrange(0, b.buf.len() as int) =~= b.buf);
    if let Some((from, to)) = group(tag, 2) {
        let code = bytes.subrange(from, to);
        comment_grows(b, code, from, 0);
        assert(with_code(b, code, from).buf.subrange(0, b.buf.len() as int) =~= b.buf);
    }
}

/// Every position in the Ruby buffer of a file leads back to the byte that was
/// copied there: each segment of the map stands for a copy. Neither the file nor
/// the buffer may be longer than the offsets of the map can count.
pub proof fn the_buffer_is_copied_from_the_file(
    bytes: Seq<u8>,
    tags: Seq<Seq<Option<(int, int)>>>,
    n: int,
)
    requires
        0 <= n <= tags.len(),
        bytes.len() <= u32::MAX,
        buffer_upto(bytes, tags, n).buf.len() <= u32::MAX,
        forall|i: int| 0 <= i < tags.len() ==> within_bytes(#[trigger] tags[i], bytes.len() as int),
    ensures
        copies(buffer_upto(bytes, tags, n), bytes),
    decreases n,
{
    if n > 0 {
        let before = buffer_upto(bytes, tags, n - 1);
        let tag = tags[n - 1];
        let after = with_tag(before, bytes, tag);
        tag_grows(before, bytes, tag);
        the_buffer_is_copied_from_the_file(bytes, tags, n - 1);
        copies_stay(before, after, bytes);
        if let Some((from, to)) = group(tag, 2) {
            assert(within_bytes(tag, bytes.len() as int));
            assert(tag[2] is Some);
            let code = bytes.subrange(from, to);
            comment_copies(before, bytes, from, to, 0);
            let coded = with_code(before, code, from);
            if after == coded {
                let seg = coded.segs.last();
                assert(coded.buf.subrange(seg.0, seg.0 + seg.1) =~= bytes.subrange(
                    seg.2,
                    seg.2 + seg.1,
                ));
                assert(is_copy(coded, bytes, seg));
            }
        }
    }
}

proof fn a_comment_is_mapped(b: BufferV, code: Seq<u8>, file_start: int, i: int)
    requires
        b.buf.len() > 0 ==> b.segs.len() > 0,
    ensures
        with_comment(b, code, file_start, i).buf.len() > 0 ==> with_comment(
            b,
            code,
            file_start,
            i,
        ).segs.len() > 0,
    decreases code.len() - i,
{
    if 0 <= i < code.len() {
        let end = byte_line_end(code, i);
        let text = code.subrange(i, line_text_end(code, i, end));
        if !(end <= i || end > code.len()) {
            let after = if all_blank(text) {
                b
            } else {
                BufferV {
                    buf: b.buf + seq![35u8] + text + seq![10u8],
                    segs: b.segs.push(
                        (
                            packed(b.buf.len() as int + 1),
                            packed(text.len() as int),
                            packed(file_start + i),
                        ),
                    ),
                }
            };
            a_comment_is_mapped(after, code, file_start, end);
        }
    }
}

/// A buffer that holds anything holds something that was copied.
proof fn code_is_mapped(bytes: Seq<u8>, tags: Seq<Seq<Option<(int, int)>>>, n: int)
    requires
        0 <= n <= tags.len(),
    ensures
        buffer_upto(bytes, tags, n).buf.len() > 0 ==> buffer_upto(bytes, tags, n).segs.len() > 0,
    decreases n,
{
    if n > 0 {
        code_is_mapped(bytes, tags, n - 1);
        let before = buffer_upto(bytes, tags, n - 1);
        if let Some((from, to)) = group(tags[n - 1], 2) {
            a_comment_is_mapped(before, bytes.subrange(from, to), from, 0);
        }
    }
}

} // verus!
