//! What the tags of an ERB file become.
use crate::lineindex::packed;
use crate::regexes::group;
use crate::scan::erb::{
    all_blank, byte_line_end, is_blank_byte, line_text_end, with_comment, with_tag, BufferV,
};
use crate::scan::{started, translated, SegV};
use vstd::prelude::*;

verus! {

/// The first byte of what stands directly behind `<%`, where it is one that
/// tells the kind of the tag.
pub open spec fn kind_of_tag(bytes: Seq<u8>, tag: Seq<Option<(int, int)>>) -> Option<u8> {
    match group(tag, 1) {
        Some((a, z)) => if a < z {
            Some(bytes[a])
        } else {
            None
        },
        None => None,
    }
}

/// Code is taken over as it is, on lines of its own, whether its value is
/// printed or not; a literal tag and one without code add nothing.
pub proof fn code_is_taken_over(
    b: BufferV,
    bytes: Seq<u8>,
    tag: Seq<Option<(int, int)>>,
    from: int,
    to: int,
    k: int,
)
    requires
        group(tag, 2) == Some((from, to)),
        0 <= from <= to <= bytes.len(),
    ensures
        ({
            let now = with_tag(b, bytes, tag);
            let kind = kind_of_tag(bytes, tag);
            let code = bytes.subrange(from, to);
            &&& (kind is None || kind == Some(61u8) || kind == Some(45u8)) && from <= k < to
                && !is_blank_byte(bytes[k]) ==> now.buf == b.buf + code + seq![10u8] && now.segs
                == b.segs.push(
                (packed(b.buf.len() as int), packed(to - from), packed(from)),
            )
            &&& kind == Some(37u8) ==> now == b
            &&& (forall|i: int| from <= i < to ==> is_blank_byte(#[trigger] bytes[i])) ==> now == b
        }),
{
    let code = bytes.subrange(from, to);
    if from <= k < to && !is_blank_byte(bytes[k]) {
        assert(code[k - from] == bytes[k]);
        assert(!all_blank(code));
    }
    if forall|i: int| from <= i < to ==> is_blank_byte(#[trigger] bytes[i]) {
        assert forall|i: int| 0 <= i < code.len() implies is_blank_byte(#[trigger] code[i]) by {
            assert(code[i] == bytes[from + i]);
        }
    }
}

proof fn a_line_ends(s: Seq<u8>, i: int, j: int)
    requires
        0 <= i <= j < s.len(),
        s[j] == 10,
        forall|k: int| i <= k < j ==> #[trigger] s[k] != 10,
    ensures
        byte_line_end(s, i) == j + 1,
    decreases j - i,
{
    if i < j {
        assert(s[i] != 10);
        a_line_ends(s, i + 1, j);
    }
}

proof fn the_last_line_ends(s: Seq<u8>, i: int)
    requires
        0 <= i <= s.len(),
        forall|k: int| i <= k < s.len() ==> #[trigger] s[k] != 10,
    ensures
        byte_line_end(s, i) == s.len(),
    decreases s.len() - i,
{
    if i < s.len() {
        assert(s[i] != 10);
        the_last_line_ends(s, i + 1);
    }
}

/// Each line of a comment becomes a comment of its own, with its text behind the
/// mark; a line without text adds nothing.
pub proof fn each_line_of_a_comment_is_a_comment(
    b: BufferV,
    code: Seq<u8>,
    start: int,
    i: int,
    j: int,
    k: int,
)
    requires
        0 <= i < j < code.len(),
        code[j] == 10,
        forall|x: int| i <= x < j ==> #[trigger] code[x] != 10 && code[x] != 13,
    ensures
        i <= k < j && !is_blank_byte(code[k]) ==> with_comment(b, code, start, i) == with_comment(
            BufferV {
                buf: b.buf + seq![35u8] + code.subrange(i, j) + seq![10u8],
                segs: b.segs.push(
                    (packed(b.buf.len() as int + 1), packed(j - i), packed(start + i)),
                ),
            },
            code,
            start,
            j + 1,
        ),
        (forall|x: int| i <= x < j ==> is_blank_byte(#[trigger] code[x])) ==> with_comment(
            b,
            code,
            start,
            i,
        ) == with_comment(b, code, start, j + 1),
{
    assert forall|x: int| i <= x < j implies #[trigger] code[x] != 10 by {
    }
    a_line_ends(code, i, j);
    assert(code[j - 1] != 13);
    assert(line_text_end(code, i, j + 1) == j);
    let text = code.subrange(i, j);
    if i <= k < j && !is_blank_byte(code[k]) {
        assert(text[k - i] == code[k]);
        assert(!all_blank(text));
    }
    if forall|x: int| i <= x < j ==> is_blank_byte(#[trigger] code[x]) {
        assert forall|x: int| 0 <= x < text.len() implies is_blank_byte(#[trigger] text[x]) by {
            assert(text[x] == code[i + x]);
        }
        assert(all_blank(text));
    }
}

/// A comment of one line becomes one comment.
pub proof fn a_comment_is_a_comment(
    b: BufferV,
    bytes: Seq<u8>,
    tag: Seq<Option<(int, int)>>,
    from: int,
    to: int,
    k: int,
)
    requires
        group(tag, 2) == Some((from, to)),
        0 <= from <= k < to <= bytes.len(),
        !is_blank_byte(bytes[k]),
        bytes[to - 1] != 13,
        forall|x: int| from <= x < to ==> #[trigger] bytes[x] != 10,
        kind_of_tag(bytes, tag) == Some(35u8),
    ensures
        ({
            let now = with_tag(b, bytes, tag);
            &&& now.buf == b.buf + seq![35u8] + bytes.subrange(from, to) + seq![10u8]
            &&& now.segs == b.segs.push(
                (packed(b.buf.len() as int + 1), packed(to - from), packed(from)),
            )
        }),
{
    let code = bytes.subrange(from, to);
    assert(code[k - from] == bytes[k]);
    assert(!all_blank(code));
    assert forall|x: int| 0 <= x < code.len() implies #[trigger] code[x] != 10 by {
        assert(code[x] == bytes[from + x]);
    }
    the_last_line_ends(code, 0);
    assert(code[code.len() - 1] == bytes[to - 1]);
    let n = code.len() as int;
    assert(line_text_end(code, 0, n) == n);
    assert(code.subrange(0, n) =~= code);
    let after = BufferV {
        buf: b.buf + seq![35u8] + code + seq![10u8],
        segs: b.segs.push((packed(b.buf.len() as int + 1), packed(n), packed(from + 0))),
    };
    assert(with_comment(after, code, from, n) == after);
}

proof fn this_many_have_started(segs: Seq<SegV>, n: int, i: int, pos: int)
    requires
        0 <= i <= n <= segs.len(),
        i > 0 ==> segs[i - 1].0 <= pos,
        forall|k: int| i <= k < n ==> (#[trigger] segs[k]).0 > pos,
    ensures
        started(segs, n, pos) == i,
    decreases n,
{
    if n > i {
        assert(segs[n - 1].0 > pos);
        this_many_have_started(segs, n - 1, i, pos);
    }
}

/// What was not copied stands for the start of the next stretch that was, and
/// behind the last one for its end.
pub proof fn what_was_not_copied_stands_for_what_follows(segs: Seq<SegV>, i: int, pos: int)
    requires
        0 < i <= segs.len(),
        0 <= pos <= u32::MAX,
        segs[i - 1].0 + segs[i - 1].1 <= pos,
        0 <= segs[i - 1].1,
        forall|k: int| i <= k < segs.len() ==> (#[trigger] segs[k]).0 > pos,
    ensures
        i < segs.len() ==> translated(segs, pos) == segs[i].2,
        i == segs.len() ==> translated(segs, pos) == segs[i - 1].2 + segs[i - 1].1,
{
    this_many_have_started(segs, segs.len() as int, i, pos);
}

} // verus!
