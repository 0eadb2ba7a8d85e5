//! Magic comments such as `# i18n-tasks-use t('a')`.
use crate::bytes::utf8_text;
use crate::scan::ruby::args::{
    args_model, keywords_upto, kwargs_model, positional_upto, process_arguments, ArgV, ArgVal,
};
use crate::scan::ruby::nodes::{
    is_i18n, is_i18n_receiver, is_t_name, is_translation_name, ruby_model, CallSiteV, RubyNode,
    RubyV,
};
use crate::text::{
    chars_of, join, join_of, push_text, strip_prefix, text_between, texts, trim, trim_of,
    trim_start, trim_start_of, without_prefix,
};
use vstd::prelude::*;
use vstd::utf8::*;

verus! {

/// A text without the blanks and tabs at its start.
pub open spec fn without_blanks(s: Seq<char>) -> Seq<char>
    decreases s.len(),
{
    if s.len() > 0 && (s[0] == ' ' || s[0] == '\t') {
        without_blanks(s.skip(1))
    } else {
        s
    }
}

/// What follows the marker of a magic comment. The first character is the `#`
/// of the comment, and a blank or a tab has to follow the marker.
pub open spec fn magic_payload(text: Seq<char>) -> Option<Seq<char>> {
    if text.len() == 0 {
        None
    } else {
        match without_prefix(without_blanks(text.skip(1)), "i18n-tasks-use"@) {
            None => None,
            Some(payload) => if payload.len() > 0 && (payload[0] == ' ' || payload[0] == '\t') {
                Some(trim_start_of(payload))
            } else {
                None
            },
        }
    }
}

/// What follows the marker of a magic comment.
pub fn strip_magic_prefix(text: &str) -> (r: Option<String>)
    ensures
        magic_payload(text@) == match r {
            Some(s) => Some(s@),
            None => None,
        },
{
    let v = chars_of(text);
    if v.len() == 0 {
        return None;
    }
    let mut i: usize = 1;
    while i < v.len() && (v[i] == ' ' || v[i] == '\t')
        invariant
            1 <= i <= v.len(),
            v@ == text@,
            without_blanks(v@.skip(i as int)) == without_blanks(text@.skip(1)),
        decreases v.len() - i,
    {
        assert(v@.skip(i as int)[0] == v@[i as int]);
        assert(v@.skip(i as int).skip(1) =~= v@.skip(i + 1));
        i = i + 1;
    }
    assert(i < v.len() ==> v@.skip(i as int)[0] == v@[i as int]);
    let rest = text_between(&v, i, v.len());
    assert(rest@ =~= v@.skip(i as int));
    match strip_prefix(&rest, "i18n-tasks-use") {
        None => None,
        Some(payload) => {
            let w = chars_of(&payload);
            if w.len() > 0 && (w[0] == ' ' || w[0] == '\t') {
                Some(trim_start(&payload))
            } else {
                None
            }
        },
    }
}

/// ASCII white space.
pub open spec fn is_ascii_space(c: char) -> bool {
    c == ' ' || c == '\t' || c == '\n' || c == '\u{c}' || c == '\r'
}

fn ascii_space(c: char) -> (b: bool)
    ensures
        b == is_ascii_space(c),
{
    c == ' ' || c == '\t' || c == '\n' || c == '\u{c}' || c == '\r'
}

/// Where the white space at `i` ends.
pub open spec fn space_end(s: Seq<char>, i: int) -> int
    decreases s.len() - i,
{
    if 0 <= i < s.len() && is_ascii_space(s[i]) {
        space_end(s, i + 1)
    } else {
        i
    }
}

/// The calls of a comment from `i` on, where the one that is being read starts
/// at `start`. White space in front of a `t` ends a call.
pub open spec fn calls_from(s: Seq<char>, start: int, i: int) -> Seq<Seq<char>>
    decreases s.len() - i,
{
    if i < 0 || i >= s.len() {
        if start < s.len() {
            seq![s.skip(start)]
        } else {
            Seq::empty()
        }
    } else if is_ascii_space(s[i]) {
        let j = space_end(s, i);
        if j <= i || j > s.len() {
            Seq::empty()
        } else if j < s.len() && s[j] == 't' && i > start {
            seq![s.subrange(start, i)] + calls_from(s, j, j)
        } else {
            calls_from(s, start, j)
        }
    } else {
        calls_from(s, start, i + 1)
    }
}

/// The calls of a comment; the whole comment where it holds nothing to split.
pub open spec fn calls_in(payload: Seq<char>) -> Seq<Seq<char>> {
    let calls = calls_from(payload, 0, 0);
    if calls.len() == 0 {
        seq![payload]
    } else {
        calls
    }
}

proof fn space_end_in_range(s: Seq<char>, i: int)
    requires
        0 <= i <= s.len(),
    ensures
        i <= space_end(s, i) <= s.len(),
        i < s.len() && is_ascii_space(s[i]) ==> i < space_end(s, i),
    decreases s.len() - i,
{
    if i < s.len() && is_ascii_space(s[i]) {
        space_end_in_range(s, i + 1);
    }
}

/// Splits several calls in one comment, at white space in front of a `t`.
pub fn split_calls(payload: &str) -> (out: Vec<String>)
    ensures
        texts(out@) == calls_in(payload@),
{
    let v = chars_of(payload);
    let mut out: Vec<String> = Vec::new();
    let mut start: usize = 0;
    let mut i: usize = 0;
    assert(texts(out@) + calls_from(v@, 0, 0) =~= calls_from(payload@, 0, 0));
    while i < v.len()
        invariant
            start <= i <= v.len(),
            v@ == payload@,
            texts(out@) + calls_from(v@, start as int, i as int) == calls_from(payload@, 0, 0),
        decreases v.len() - i,
    {
        if ascii_space(v[i]) {
            let ghost before = texts(out@);
            let at: usize = i;
            proof {
                space_end_in_range(v@, at as int);
            }
            while i < v.len() && ascii_space(v[i])
                invariant
                    at <= i <= v.len(),
                    space_end(v@, i as int) == space_end(v@, at as int),
                decreases v.len() - i,
            {
                i = i + 1;
            }
            if i < v.len() && v[i] == 't' && at > start {
                push_text(&mut out, text_between(&v, start, at));
                assert(texts(out@) + calls_from(v@, i as int, i as int) =~= before + (seq![
                    v@.subrange(start as int, at as int),
                ] + calls_from(v@, i as int, i as int)));
                start = i;
            }
        } else {
            i = i + 1;
        }
    }
    let ghost before = texts(out@);
    if start < v.len() {
        push_text(&mut out, text_between(&v, start, v.len()));
        assert(v@.subrange(start as int, v.len() as int) =~= v@.skip(start as int));
        assert(texts(out@) =~= before + seq![v@.skip(start as int)]);
    } else {
        assert(before + Seq::<Seq<char>>::empty() =~= before);
    }
    assert(texts(out@).len() == out.len());
    if out.len() == 0 {
        out.push(payload.to_owned());
        assert(texts(out@) =~= seq![payload@]);
    }
    out
}

/// A text without a character.
pub open spec fn without_char(s: Seq<char>, c: char) -> Seq<char>
    decreases s.len(),
{
    if s.len() == 0 {
        Seq::empty()
    } else if s.last() == c {
        without_char(s.drop_last(), c)
    } else {
        without_char(s.drop_last(), c).push(s.last())
    }
}

fn drop_char(s: &str, c: char) -> (out: String)
    ensures
        out@ == without_char(s@, c),
{
    let mut out = String::new();
    assert(out@ =~= without_char(s@.take(0), c));
    for d in it: s.chars()
        invariant
            it.seq() == s@,
            out@ == without_char(s@.take(it.index() as int), c),
    {
        let ghost now = s@.take(it.index() + 1);
        assert(now.drop_last() =~= s@.take(it.index() as int));
        assert(now.last() == d);
        if d != c {
            out.push(d);
        }
    }
    assert(s@.take(s@.len() as int) =~= s@);
    out
}

/// The Ruby source that a magic comment stands for: its calls, one behind the
/// other.
pub open spec fn magic_source_of(text: Seq<u8>) -> Option<Seq<char>> {
    if !valid_utf8(text) {
        None
    } else {
        match magic_payload(decode_utf8(text)) {
            None => None,
            Some(payload) => {
                let bare = trim_of(without_char(payload, '#'));
                if bare.len() == 0 {
                    None
                } else {
                    Some(join_of(calls_in(bare), "; "@))
                }
            },
        }
    }
}

/// The Ruby source that a magic comment stands for, to be parsed; `None` where
/// the comment is not a magic one.
pub fn magic_source(text: &[u8]) -> (r: Option<String>)
    ensures
        magic_source_of(text@) == match r {
            Some(s) => Some(s@),
            None => None,
        },
{
    let text = match utf8_text(text) {
        Some(text) => text,
        None => {
            return None;
        },
    };
    let payload = match strip_magic_prefix(&text) {
        Some(payload) => payload,
        None => {
            return None;
        },
    };
    let bare = trim(&drop_char(&payload, '#'));
    if bare.as_str().is_empty() {
        return None;
    }
    Some(join(&split_calls(&bare), "; "))
}

/// A `t` call reduced to what decides its key.
pub struct ExtractedCall {
    pub args: Vec<ArgVal>,
    pub kwargs: Vec<(String, ArgVal)>,
    pub receiver_present: bool,
    pub receiver_is_i18n: bool,
}

/// What an [`ExtractedCall`] holds.
pub struct ExtractedV {
    pub args: Seq<ArgV>,
    pub kwargs: Seq<(Seq<char>, ArgV)>,
    pub receiver_present: bool,
    pub receiver_is_i18n: bool,
}

impl View for ExtractedCall {
    type V = ExtractedV;

    open spec fn view(&self) -> ExtractedV {
        ExtractedV {
            args: args_model(self.args@),
            kwargs: kwargs_model(self.kwargs@),
            receiver_present: self.receiver_present,
            receiver_is_i18n: self.receiver_is_i18n,
        }
    }
}

/// What a list of calls holds.
pub open spec fn calls_model(v: Seq<ExtractedCall>) -> Seq<ExtractedV> {
    Seq::new(v.len(), |i: int| v[i]@)
}

/// A call reduced to what decides its key.
pub open spec fn extracted(call: CallSiteV) -> ExtractedV {
    ExtractedV {
        args: positional_upto(call.arguments, call.arguments.len()),
        kwargs: keywords_upto(call.arguments, call.arguments.len()),
        receiver_present: call.receiver is Some,
        receiver_is_i18n: call.receiver is Some && is_i18n(call.receiver->Some_0),
    }
}

/// The `t` calls in a node, an outer one before those inside it.
pub open spec fn t_calls(node: RubyV) -> Seq<ExtractedV>
    decreases node, 0nat,
{
    match node {
        RubyV::Module { body, .. } => t_calls_in(body, body.len()),
        RubyV::Class { body, .. } => t_calls_in(body, body.len()),
        RubyV::Def { body, .. } => t_calls_in(body, body.len()),
        RubyV::Call { method, call, body } => (if is_t_name(method) {
            seq![extracted(call)]
        } else {
            Seq::empty()
        }) + t_calls_in(body, body.len()),
    }
}

/// The `t` calls in the first `n` nodes.
pub open spec fn t_calls_in(nodes: Seq<RubyV>, n: nat) -> Seq<ExtractedV>
    decreases nodes, n,
{
    if n == 0 || n > nodes.len() {
        Seq::empty()
    } else {
        t_calls_in(nodes, (n - 1) as nat) + t_calls(nodes[n - 1])
    }
}

fn collect_from(node: &RubyNode, out: &mut Vec<ExtractedCall>)
    ensures
        calls_model(final(out)@) == calls_model(old(out)@) + t_calls(node@),
    decreases node, 1nat,
{
    let ghost start = calls_model(out@);
    match node {
        RubyNode::Module { body, .. } => {
            assert(node@->Module_body =~= ruby_model(body@));
            collect_all(body, out);
        },
        RubyNode::Class { body, .. } => {
            assert(node@->Class_body =~= ruby_model(body@));
            collect_all(body, out);
        },
        RubyNode::Def { body, .. } => {
            assert(node@->Def_body =~= ruby_model(body@));
            collect_all(body, out);
        },
        RubyNode::Call { method, call, body } => {
            assert(node@->Call_body =~= ruby_model(body@));
            if is_translation_name(method) {
                let (args, kwargs) = process_arguments(&call.arguments);
                let (receiver_present, receiver_is_i18n) = match &call.receiver {
                    Some(recv) => (true, is_i18n_receiver(recv)),
                    None => (false, false),
                };
                let item = ExtractedCall { args, kwargs, receiver_present, receiver_is_i18n };
                assert(call@.arguments.len() == call.arguments@.len());
                assert(item@ == extracted(call@));
                out.push(item);
                assert(calls_model(out@) =~= start + seq![extracted(call@)]);
            } else {
                assert(calls_model(out@) =~= start + Seq::empty());
            }
            let ghost middle = calls_model(out@);
            collect_all(body, out);
            assert(calls_model(out@) =~= start + t_calls(node@));
        },
    }
}

#[verifier::loop_isolation(false)]
fn collect_all(nodes: &Vec<RubyNode>, out: &mut Vec<ExtractedCall>)
    ensures
        calls_model(final(out)@) == calls_model(old(out)@) + t_calls_in(
            ruby_model(nodes@),
            nodes@.len(),
        ),
    decreases nodes,
{
    let ghost start = calls_model(out@);
    let ghost model = ruby_model(nodes@);
    let mut i: usize = 0;
    assert(calls_model(out@) =~= start + t_calls_in(model, 0));
    while i < nodes.len()
        invariant
            i <= nodes.len(),
            model == ruby_model(nodes@),
            calls_model(out@) == start + t_calls_in(model, i as nat),
        decreases nodes.len() - i,
    {
        assert(decreases_to!(*nodes => nodes@[i as int]));
        assert(model[i as int] == nodes@[i as int]@);
        collect_from(&nodes[i], out);
        i = i + 1;
        assert(calls_model(out@) =~= start + t_calls_in(model, i as nat));
    }
}

/// The `t` calls in the parse of a magic comment, in the order in which they
/// are written.
pub fn collect_translation_calls(nodes: &Vec<RubyNode>) -> (out: Vec<ExtractedCall>)
    ensures
        calls_model(out@) == t_calls_in(ruby_model(nodes@), nodes@.len()),
{
    let mut out: Vec<ExtractedCall> = Vec::new();
    assert(calls_model(out@) =~= Seq::empty());
    collect_all(nodes, &mut out);
    assert(calls_model(out@) =~= t_calls_in(ruby_model(nodes@), nodes@.len()));
    out
}

} // verus!
