//! Scanning source files for the keys that they use.
pub mod erb;
pub mod places;
pub mod ruby;
pub mod template;

use crate::config::Config;
use crate::data::load::clone_texts;
use crate::lineindex::{
    breaks_before, line_begin_of, line_number_of, line_start, packed, within, LineIndex,
};
use crate::paths::{extension, extension_of};
use crate::regexes::compiles;
use crate::scan::erb::{buffer_upto, tags_of, BufferV, TAG_SOURCE};
use crate::scan::ruby::nodes::{ruby_model, RubyNode, RubyV};
use crate::scan::ruby::{comments_model, facts_of, ruby_scan, Comment, CommentV};
use crate::scan::template::{TemplateV, CALL_SOURCE, LITERAL_SOURCE};
use crate::text::{
    chars_of, concat, occurs_at, same_text, stands_at, swap_char, swap_char_of, text_between, texts,
};
use vstd::prelude::*;
use vstd::utf8::encode_utf8;

verus! {

/// One place in the source where a key is used.
pub struct Occurrence {
    pub path: String,
    /// The source slice of the call.
    pub snippet: String,
    pub pos: usize,
    pub line_pos: usize,
    pub line_num: usize,
    pub raw_key: String,
    /// All keys this occurrence may resolve to. Only the report of missing
    /// keys looks at more than the first.
    pub candidate_keys: Vec<String>,
}

/// What an [`Occurrence`] holds.
pub struct OccurrenceV {
    pub path: Seq<char>,
    pub snippet: Seq<char>,
    pub pos: int,
    pub line_pos: int,
    pub line_num: int,
    pub raw_key: Seq<char>,
    pub candidate_keys: Seq<Seq<char>>,
}

impl View for Occurrence {
    type V = OccurrenceV;

    open spec fn view(&self) -> OccurrenceV {
        OccurrenceV {
            path: self.path@,
            snippet: self.snippet@,
            pos: self.pos as int,
            line_pos: self.line_pos as int,
            line_num: self.line_num as int,
            raw_key: self.raw_key@,
            candidate_keys: texts(self.candidate_keys@),
        }
    }
}

impl Clone for Occurrence {
    fn clone(&self) -> (r: Occurrence)
        ensures
            r@ == self@,
    {
        Occurrence {
            path: self.path.clone(),
            snippet: self.snippet.clone(),
            pos: self.pos,
            line_pos: self.line_pos,
            line_num: self.line_num,
            raw_key: self.raw_key.clone(),
            candidate_keys: clone_texts(&self.candidate_keys),
        }
    }
}

/// What a list of occurrences holds.
pub open spec fn occurrences_model(v: Seq<Occurrence>) -> Seq<OccurrenceV> {
    Seq::new(v.len(), |i: int| v[i]@)
}

/// What a list of texts with occurrences holds.
pub open spec fn found_model(v: Seq<(String, Occurrence)>) -> Seq<(Seq<char>, OccurrenceV)> {
    Seq::new(v.len(), |i: int| (v[i].0@, v[i].1@))
}

pub(crate) fn push_found(v: &mut Vec<(String, Occurrence)>, key: String, occ: Occurrence)
    ensures
        found_model(final(v)@) == found_model(old(v)@).push((key@, occ@)),
{
    let ghost before = found_model(v@);
    let ghost item = (key@, occ@);
    v.push((key, occ));
    assert(found_model(v@) =~= before.push(item));
}

pub(crate) fn push_opaque(v: &mut Vec<Occurrence>, occ: Occurrence)
    ensures
        occurrences_model(final(v)@) == occurrences_model(old(v)@).push(occ@),
{
    let ghost before = occurrences_model(v@);
    let ghost item = occ@;
    v.push(occ);
    assert(occurrences_model(v@) =~= before.push(item));
}

pub(crate) fn clone_occurrences(v: &Vec<Occurrence>) -> (out: Vec<Occurrence>)
    ensures
        occurrences_model(out@) == occurrences_model(v@),
{
    let mut out: Vec<Occurrence> = Vec::new();
    let mut i: usize = 0;
    while i < v.len()
        invariant
            i <= v.len(),
            out.len() == i,
            forall|j: int| 0 <= j < i ==> (#[trigger] out@[j])@ == v@[j]@,
        decreases v.len() - i,
    {
        out.push(v[i].clone());
        i = i + 1;
    }
    assert(occurrences_model(out@) =~= occurrences_model(v@));
    out
}

/// The result of scanning one file.
pub struct FileScan {
    /// Fully resolved keys.
    pub keys: Vec<(String, Occurrence)>,
    /// Key patterns derived from interpolated keys.
    pub patterns: Vec<(String, Occurrence)>,
    /// Calls whose key cannot be determined at all, such as `t(some_var)`.
    pub opaque: Vec<Occurrence>,
}

/// What a [`FileScan`] holds.
pub struct FileScanV {
    pub keys: Seq<(Seq<char>, OccurrenceV)>,
    pub patterns: Seq<(Seq<char>, OccurrenceV)>,
    pub opaque: Seq<OccurrenceV>,
}

impl View for FileScan {
    type V = FileScanV;

    open spec fn view(&self) -> FileScanV {
        FileScanV {
            keys: found_model(self.keys@),
            patterns: found_model(self.patterns@),
            opaque: occurrences_model(self.opaque@),
        }
    }
}

/// A scan that found nothing.
pub open spec fn nothing_found() -> FileScanV {
    FileScanV { keys: Seq::empty(), patterns: Seq::empty(), opaque: Seq::empty() }
}

impl Default for FileScan {
    fn default() -> (scan: FileScan)
        ensures
            scan@ == nothing_found(),
    {
        let scan = FileScan { keys: Vec::new(), patterns: Vec::new(), opaque: Vec::new() };
        assert(scan@.keys =~= Seq::empty());
        assert(scan@.patterns =~= Seq::empty());
        assert(scan@.opaque =~= Seq::empty());
        scan
    }
}

impl FileScan {
    /// Adds what another scan found.
    pub fn merge(&mut self, other: FileScan)
        ensures
            final(self)@ == (FileScanV {
                keys: old(self)@.keys + other@.keys,
                patterns: old(self)@.patterns + other@.patterns,
                opaque: old(self)@.opaque + other@.opaque,
            }),
    {
        let FileScan { mut keys, mut patterns, mut opaque } = other;
        self.keys.append(&mut keys);
        self.patterns.append(&mut patterns);
        self.opaque.append(&mut opaque);
        assert(self@.keys =~= old(self)@.keys + other@.keys);
        assert(self@.patterns =~= old(self)@.patterns + other@.patterns);
        assert(self@.opaque =~= old(self)@.opaque + other@.opaque);
    }
}

// ------------------------------------------------------------- the configuration

/// The parts of the config a scanner needs.
pub struct ScanConfig {
    /// Longest match wins.
    pub relative_roots: Vec<String>,
    pub relative_exclude_method_name_paths: Vec<String>,
}

/// What a [`ScanConfig`] holds.
pub struct ScanConfigV {
    pub relative_roots: Seq<Seq<char>>,
    pub relative_exclude_method_name_paths: Seq<Seq<char>>,
}

impl View for ScanConfig {
    type V = ScanConfigV;

    open spec fn view(&self) -> ScanConfigV {
        ScanConfigV {
            relative_roots: texts(self.relative_roots@),
            relative_exclude_method_name_paths: texts(self.relative_exclude_method_name_paths@),
        }
    }
}

/// The text without the slashes at its end.
pub open spec fn without_slashes(s: Seq<char>) -> Seq<char>
    decreases s.len(),
{
    if s.len() > 0 && s.last() == '/' {
        without_slashes(s.drop_last())
    } else {
        s
    }
}

pub(crate) fn trim_slashes(s: &str) -> (out: String)
    ensures
        out@ == without_slashes(s@),
{
    let v = chars_of(s);
    let mut n: usize = v.len();
    assert(v@.take(n as int) =~= s@);
    while n > 0 && v[n - 1] == '/'
        invariant
            n <= v.len(),
            v@ == s@,
            without_slashes(v@.take(n as int)) == without_slashes(s@),
        decreases n,
    {
        assert(v@.take(n as int).drop_last() =~= v@.take(n - 1));
        n = n - 1;
    }
    let out = text_between(&v, 0, n);
    assert(out@ =~= v@.take(n as int));
    out
}

/// The text stands in the path, at its start or behind a slash.
pub open spec fn starts_a_part(path: Seq<char>, text: Seq<char>, i: int) -> bool {
    occurs_at(path, text, i) && (i == 0 || path[i - 1] == '/')
}

/// The file lies under the root: the directories of the root stand in its path.
pub open spec fn lies_under(path: Seq<char>, root: Seq<char>) -> bool {
    exists|i: int| #[trigger]
        starts_a_part(swap_char_of(path, '\\', '/'), without_slashes(root) + "/"@, i)
}

/// Whether the text stands in the path, at its start or behind a slash.
fn has_part(path: &Vec<char>, text: &Vec<char>) -> (b: bool)
    requires
        text.len() > 0,
    ensures
        b == (exists|i: int| #[trigger] starts_a_part(path@, text@, i)),
{
    let mut i: usize = 0;
    let count = path.len();
    while i < count
        invariant
            i <= count == path.len(),
            forall|j: int| 0 <= j < i ==> !#[trigger] starts_a_part(path@, text@, j),
        decreases count - i,
    {
        if (i == 0 || path[i - 1] == '/') && stands_at(path, text, i) {
            assert(starts_a_part(path@, text@, i as int));
            return true;
        }
        i = i + 1;
    }
    false
}

/// The last place at or before `from` where the text starts a part of the path.
pub open spec fn last_part(path: Seq<char>, text: Seq<char>, from: int) -> Option<int>
    decreases from + 1,
{
    if from < 0 {
        None
    } else if starts_a_part(path, text, from) {
        Some(from)
    } else {
        last_part(path, text, from - 1)
    }
}

/// The last place where the text stands in the path, at its start or behind a
/// slash.
pub(crate) fn find_last_part(path: &Vec<char>, text: &Vec<char>) -> (r: Option<usize>)
    ensures
        match r {
            Some(i) => last_part(path@, text@, path@.len() as int) == Some(i as int)
                && starts_a_part(path@, text@, i as int),
            None => last_part(path@, text@, path@.len() as int) is None,
        },
{
    let mut i: usize = path.len();
    loop
        invariant
            i <= path.len(),
            last_part(path@, text@, path@.len() as int) == last_part(path@, text@, i as int),
        decreases i,
    {
        if (i == 0 || path[i - 1] == '/') && stands_at(path, text, i) {
            return Some(i);
        }
        if i == 0 {
            assert(last_part(path@, text@, -1) is None);
            return None;
        }
        i = i - 1;
    }
}

/// The length of a text in bytes.
pub open spec fn byte_len(s: Seq<char>) -> int {
    encode_utf8(s).len() as int
}

/// The root at `i` is the longest under which the file lies, and the last one
/// of that length.
pub open spec fn is_longest_root(roots: Seq<Seq<char>>, path: Seq<char>, i: int) -> bool {
    &&& 0 <= i < roots.len()
    &&& lies_under(path, roots[i])
    &&& forall|j: int|
        0 <= j < roots.len() && lies_under(path, #[trigger] roots[j]) ==> byte_len(roots[j])
            <= byte_len(roots[i]) && (j > i ==> byte_len(roots[j]) < byte_len(roots[i]))
}

/// The longest root under which a file lies, the last one of that length.
pub open spec fn longest_root(roots: Seq<Seq<char>>, path: Seq<char>) -> Option<Seq<char>> {
    if exists|i: int| is_longest_root(roots, path, i) {
        Some(roots[choose|i: int| is_longest_root(roots, path, i)])
    } else {
        None
    }
}

proof fn longest_root_is_unique(roots: Seq<Seq<char>>, path: Seq<char>, i: int)
    requires
        is_longest_root(roots, path, i),
    ensures
        longest_root(roots, path) == Some(roots[i]),
{
    let k = choose|k: int| is_longest_root(roots, path, k);
    assert(is_longest_root(roots, path, k));
    assert(lies_under(path, roots[i]) && lies_under(path, roots[k]));
}

/// Two spellings of one directory.
pub open spec fn same_directory(a: Seq<char>, b: Seq<char>) -> bool {
    without_slashes(a) == without_slashes(b)
}

/// Keys under the root leave the name of the method out.
pub open spec fn leaves_method_out(paths: Seq<Seq<char>>, root: Seq<char>) -> bool {
    exists|i: int| 0 <= i < paths.len() && same_directory(#[trigger] paths[i], root)
}

impl ScanConfig {
    /// The parts of a configuration that a scanner needs.
    pub fn from_config(cfg: &Config) -> (scan: ScanConfig)
        ensures
            texts(scan.relative_roots@) == cfg@.search.relative_roots,
            texts(scan.relative_exclude_method_name_paths@)
                == cfg@.search.relative_exclude_method_name_paths,
    {
        ScanConfig {
            relative_roots: clone_texts(&cfg.search.relative_roots),
            relative_exclude_method_name_paths: clone_texts(
                &cfg.search.relative_exclude_method_name_paths,
            ),
        }
    }

    /// The longest configured relative root the file lies under.
    pub fn matching_root(&self, path: &str) -> (r: Option<&str>)
        ensures
            longest_root(self@.relative_roots, path@) == match r {
                Some(root) => Some(root@),
                None => None,
            },
    {
        let p = chars_of(&swap_char(path, '\\', '/'));
        let ghost roots = texts(self.relative_roots@);
        let mut best: Option<usize> = None;
        let mut k: usize = 0;
        while k < self.relative_roots.len()
            invariant
                k <= self.relative_roots.len(),
                roots == texts(self.relative_roots@),
                p@ == swap_char_of(path@, '\\', '/'),
                match best {
                    Some(i) => {
                        &&& i < k
                        &&& lies_under(path@, roots[i as int])
                        &&& forall|j: int|
                            0 <= j < k && lies_under(path@, #[trigger] roots[j]) ==> byte_len(
                                roots[j],
                            ) <= byte_len(roots[i as int]) && (j > i ==> byte_len(roots[j])
                                < byte_len(roots[i as int]))
                    },
                    None => forall|j: int| 0 <= j < k ==> !lies_under(path@, #[trigger] roots[j]),
                },
            decreases self.relative_roots.len() - k,
        {
            let root = &self.relative_roots[k];
            assert(roots[k as int] == root@);
            let mark = chars_of(&concat(&trim_slashes(root), "/"));
            proof {
                reveal_strlit("/");
            }
            if has_part(&p, &mark) {
                let longer = match best {
                    Some(i) => {
                        assert(roots[i as int] == self.relative_roots@[i as int]@);
                        root.as_str().as_bytes().len() >= self.relative_roots[i].as_str().as_bytes().len()
                    },
                    None => true,
                };
                if longer {
                    best = Some(k);
                }
            }
            k = k + 1;
        }
        match best {
            Some(i) => {
                proof {
                    longest_root_is_unique(roots, path@, i as int);
                }
                assert(roots[i as int] == self.relative_roots@[i as int]@);
                Some(self.relative_roots[i].as_str())
            },
            None => None,
        }
    }

    /// Whether keys under the root leave the name of the method out.
    pub fn skips_method_name(&self, root: &str) -> (b: bool)
        ensures
            b == leaves_method_out(self@.relative_exclude_method_name_paths, root@),
    {
        let paths = &self.relative_exclude_method_name_paths;
        let mut i: usize = 0;
        while i < paths.len()
            invariant
                i <= paths.len(),
                *paths == self.relative_exclude_method_name_paths,
                forall|j: int| 0 <= j < i ==> !same_directory(#[trigger] texts(paths@)[j], root@),
            decreases paths.len() - i,
        {
            assert(texts(paths@)[i as int] == paths@[i as int]@);
            if same_text(&trim_slashes(&paths[i]), &trim_slashes(root)) {
                return true;
            }
            i = i + 1;
        }
        false
    }
}

// ----------------------------------------------------------------- source maps

/// One copied stretch: its start in the buffer, its length, its start in the
/// file.
pub type SegV = (int, int, int);

/// How many of the first `n` stretches start at or before `pos`; they were
/// pushed in order.
pub open spec fn started(segs: Seq<SegV>, n: int, pos: int) -> int
    decreases n,
{
    if n <= 0 {
        0
    } else if segs[n - 1].0 <= pos {
        n
    } else {
        started(segs, n - 1, pos)
    }
}

/// The file offset of a buffer offset: in a copied stretch the byte that was
/// copied, in filler the start of the next stretch, at the very end the end of
/// the last one.
pub open spec fn translated(segs: Seq<SegV>, buf_pos: int) -> int {
    let pos = packed(buf_pos);
    let i = started(segs, segs.len() as int, pos);
    if segs.len() == 0 {
        buf_pos
    } else if i == 0 {
        segs[0].2
    } else {
        let seg = segs[i - 1];
        if pos < seg.0 + seg.1 {
            seg.2 + (pos - seg.0)
        } else if i < segs.len() {
            segs[i].2
        } else {
            seg.2 + seg.1
        }
    }
}

/// Maps a byte offset in a synthetic buffer back to the file it came from.
pub struct SourceMap {
    segs: Vec<Seg>,
}

struct Seg {
    buf_start: u32,
    len: u32,
    file_start: u32,
}

impl View for SourceMap {
    type V = Seq<SegV>;

    closed spec fn view(&self) -> Seq<SegV> {
        Seq::new(
            self.segs@.len(),
            |i: int|
                (
                    self.segs@[i].buf_start as int,
                    self.segs@[i].len as int,
                    self.segs@[i].file_start as int,
                ),
        )
    }
}

fn pack(o: usize) -> (p: u32)
    ensures
        p == packed(o as int),
{
    if o <= 0xffff_ffff {
        o as u32
    } else {
        0xffff_ffff
    }
}

fn unpack(o: u64) -> (p: usize)
    ensures
        p == if o <= usize::MAX {
            o as int
        } else {
            usize::MAX as int
        },
{
    if o <= usize::MAX as u64 {
        o as usize
    } else {
        usize::MAX
    }
}

impl Default for SourceMap {
    fn default() -> (map: SourceMap)
        ensures
            map@ == Seq::<SegV>::empty(),
    {
        let map = SourceMap { segs: Vec::new() };
        assert(map@ =~= Seq::<SegV>::empty());
        map
    }
}

impl SourceMap {
    /// Records that `len` bytes at `buf_start` in the buffer are a verbatim copy
    /// of the file bytes at `file_start`. Segments must be pushed in order. The
    /// offsets are packed as `u32`, and a longer one saturates.
    pub fn push(&mut self, buf_start: usize, len: usize, file_start: usize)
        ensures
            final(self)@ == old(self)@.push(
                (packed(buf_start as int), packed(len as int), packed(file_start as int)),
            ),
    {
        self.segs.push(
            Seg { buf_start: pack(buf_start), len: pack(len), file_start: pack(file_start) },
        );
        assert(self@ =~= old(self)@.push(
            (packed(buf_start as int), packed(len as int), packed(file_start as int)),
        ));
    }

    /// A buffer offset as a file offset. An offset that lands in filler the
    /// scanner inserted resolves to the start of the next real segment.
    pub fn translate(&self, buf_pos: usize) -> (pos: usize)
        ensures
            pos == if translated(self@, buf_pos as int) <= usize::MAX {
                translated(self@, buf_pos as int)
            } else {
                usize::MAX as int
            },
    {
        let ghost model = self@;
        if self.segs.len() == 0 {
            return buf_pos;
        }
        let pos = pack(buf_pos);
        let mut i: usize = self.segs.len();
        while i > 0 && self.segs[i - 1].buf_start > pos
            invariant
                i <= self.segs.len(),
                model == self@,
                started(model, model.len() as int, pos as int) == started(
                    model,
                    i as int,
                    pos as int,
                ),
            decreases i,
        {
            assert(model[i - 1].0 == self.segs@[i - 1].buf_start);
            i = i - 1;
        }
        assert(i > 0 ==> model[i - 1].0 == self.segs@[i - 1].buf_start);
        if i == 0 {
            assert(model[0].2 == self.segs@[0].file_start);
            return unpack(self.segs[0].file_start as u64);
        }
        let seg = &self.segs[i - 1];
        assert(model[i - 1] == (seg.buf_start as int, seg.len as int, seg.file_start as int));
        if (pos as u64) < seg.buf_start as u64 + seg.len as u64 {
            unpack(seg.file_start as u64 + (pos - seg.buf_start) as u64)
        } else if i < self.segs.len() {
            assert(model[i as int].2 == self.segs@[i as int].file_start);
            unpack(self.segs[i].file_start as u64)
        } else {
            unpack(seg.file_start as u64 + seg.len as u64)
        }
    }
}

/// Turns a parser offset into the file position, line and column an
/// `Occurrence` reports.
pub struct Locator<'a> {
    pub index: &'a LineIndex,
    pub map: Option<&'a SourceMap>,
}

/// What a [`Locator`] goes by.
pub struct LocatorV {
    pub bytes: Seq<u8>,
    pub map: Option<Seq<SegV>>,
}

impl<'a> View for Locator<'a> {
    type V = LocatorV;

    open spec fn view(&self) -> LocatorV {
        LocatorV {
            bytes: self.index@,
            map: match self.map {
                Some(m) => Some(m@),
                None => None,
            },
        }
    }
}

impl LocatorV {
    /// The file position of an offset.
    pub open spec fn file_pos(self, pos: int) -> int {
        match self.map {
            None => pos,
            Some(m) => if translated(m, pos) <= usize::MAX {
                translated(m, pos)
            } else {
                usize::MAX as int
            },
        }
    }

    /// The file position, line and column of an offset.
    pub open spec fn place(self, pos: int) -> (int, int, int) {
        let at = self.file_pos(pos);
        (at, line_number_of(self.bytes, at), at - line_begin_of(self.bytes, at))
    }
}

impl<'a> Locator<'a> {
    /// Offsets are offsets of the file.
    pub fn direct(index: &'a LineIndex) -> (r: Locator<'a>)
        ensures
            r.index == index,
            r.map is None,
    {
        Locator { index, map: None }
    }

    /// Offsets are offsets of a buffer that was copied from the file.
    pub fn mapped(index: &'a LineIndex, map: &'a SourceMap) -> (r: Locator<'a>)
        ensures
            r.index == index,
            r.map == Some(map),
    {
        Locator { index, map: Some(map) }
    }

    /// `(file position, one-based line, zero-based column)`.
    pub fn locate(&self, pos: usize) -> (r: (usize, usize, usize))
        ensures
            (r.0 as int, r.1 as int, r.2 as int) == self@.place(pos as int),
            r.1 >= 1,
            self.index@.len() <= u32::MAX ==> {
                let o = within(self.index@, r.0 as int);
                &&& r.1 == 1 + breaks_before(self.index@, o)
                &&& r.2 == r.0 - line_start(self.index@, o)
            },
    {
        let pos = match self.map {
            None => pos,
            Some(m) => m.translate(pos),
        };
        let (line, col) = self.index.locate(pos);
        (pos, line, col)
    }
}

// --------------------------------------------------------------------- dispatch

/// What a Ruby source parses to.
pub struct ParsedRuby {
    pub program: Vec<RubyNode>,
    pub comments: Vec<Comment>,
}

/// What a [`ParsedRuby`] holds.
pub struct ParsedV {
    pub program: Seq<RubyV>,
    pub comments: Seq<CommentV>,
}

impl View for ParsedRuby {
    type V = ParsedV;

    open spec fn view(&self) -> ParsedV {
        ParsedV { program: ruby_model(self.program@), comments: comments_model(self.comments@) }
    }
}

/// Whether `parse` gives `parsed` for the bytes that it is handed.
pub open spec fn parses_bytes<P: Fn(Vec<u8>) -> ParsedRuby>(
    parse: P,
    bytes: Seq<u8>,
    parsed: ParsedV,
) -> bool {
    exists|s: Vec<u8>, p: ParsedRuby|
        s@ == bytes && p@ == parsed && #[trigger] call_ensures(parse, (s,), p)
}

/// What a Ruby file holds, where its bytes parse to `parsed`.
pub open spec fn ruby_found(
    bytes: Seq<u8>,
    path: Seq<char>,
    cfg: ScanConfigV,
    parsed: ParsedV,
) -> FileScanV {
    ruby_scan(
        parsed.program,
        parsed.comments,
        facts_of(path, cfg),
        LocatorV { bytes, map: None },
    )
}

/// What an ERB file holds, where its buffer parses to `parsed`.
pub open spec fn erb_found(
    bytes: Seq<u8>,
    path: Seq<char>,
    cfg: ScanConfigV,
    segs: Seq<SegV>,
    parsed: ParsedV,
) -> FileScanV {
    ruby_scan(
        parsed.program,
        parsed.comments,
        facts_of(path, cfg),
        LocatorV { bytes, map: Some(segs) },
    )
}

/// What an ERB file holds, where `buffered` is what its buffer parses to.
pub open spec fn erb_file_found(
    bytes: Seq<u8>,
    path: Seq<char>,
    cfg: ScanConfigV,
    buffered: ParsedV,
) -> FileScanV {
    let b = erb_buffer(bytes);
    if b.buf.len() == 0 {
        nothing_found()
    } else {
        erb_found(bytes, path, cfg, b.segs, buffered)
    }
}

/// The Ruby buffer of an ERB file.
pub open spec fn erb_buffer(bytes: Seq<u8>) -> BufferV {
    let tags = tags_of(bytes);
    buffer_upto(bytes, tags, tags.len() as int)
}

/// What a file holds that is neither Ruby nor ERB.
pub open spec fn template_found(bytes: Seq<u8>, path: Seq<char>, cfg: ScanConfigV) -> FileScanV {
    (TemplateV { bytes, path, cfg }).found_from(0, nothing_found())
}

/// `r` is what a file is scanned to: a Ruby file by what its bytes parse to, an
/// ERB file by what its buffer parses to, and every other file without a parse.
pub open spec fn is_scan<P: Fn(Vec<u8>) -> ParsedRuby>(
    parse: P,
    bytes: Seq<u8>,
    path: Seq<char>,
    cfg: ScanConfigV,
    r: Option<FileScan>,
) -> bool {
    if extension_of(path) == Some("rb"@) {
        r matches Some(out) && exists|parsed: ParsedV| #[trigger]
            parses_bytes(parse, bytes, parsed) && out@ == ruby_found(bytes, path, cfg, parsed)
    } else if extension_of(path) == Some("erb"@) {
        match r {
            None => !compiles(TAG_SOURCE@),
            Some(out) => compiles(TAG_SOURCE@) && if erb_buffer(bytes).buf.len() == 0 {
                out@ == nothing_found()
            } else {
                exists|parsed: ParsedV| #[trigger]
                    parses_bytes(parse, erb_buffer(bytes).buf, parsed) && out@ == erb_file_found(
                        bytes,
                        path,
                        cfg,
                        parsed,
                    )
            },
        }
    } else {
        match r {
            None => !compiles(CALL_SOURCE@) || !compiles(LITERAL_SOURCE@),
            Some(out) => compiles(CALL_SOURCE@) && compiles(LITERAL_SOURCE@) && out@
                == template_found(bytes, path, cfg),
        }
    }
}

fn copy_bytes(bytes: &[u8]) -> (out: Vec<u8>)
    ensures
        out@ == bytes@,
{
    let mut out: Vec<u8> = Vec::new();
    let mut i: usize = 0;
    while i < bytes.len()
        invariant
            i <= bytes.len(),
            out@ == bytes@.take(i as int),
        decreases bytes.len() - i,
    {
        out.push(bytes[i]);
        i = i + 1;
        assert(out@ =~= bytes@.take(i as int));
    }
    assert(bytes@.take(bytes@.len() as int) =~= bytes@);
    out
}

/// Scans one file: `*.rb` with the Ruby scanner, `*.erb` with the ERB scanner,
/// and everything else with regular expressions. `parse` parses Ruby. `None`
/// where a regular expression of a scanner does not compile.
pub fn scan_file<P: Fn(Vec<u8>) -> ParsedRuby>(
    bytes: &[u8],
    path: &str,
    cfg: &ScanConfig,
    parse: P,
) -> (r: Option<FileScan>)
    requires
        forall|s: Vec<u8>| #[trigger] call_requires(parse, (s,)),
    ensures
        is_scan(parse, bytes@, path@, cfg@, r),
{
    let (is_rb, is_erb) = match extension(path) {
        Some(ext) => (same_text(&ext, "rb"), same_text(&ext, "erb")),
        None => (false, false),
    };
    if is_rb {
        let source = copy_bytes(bytes);
        let ghost given = source;
        let parsed = parse(source);
        assert(call_ensures(parse, (given,), parsed));
        assert(parses_bytes(parse, bytes@, parsed@));
        let out = ruby::scan(bytes, &parsed.program, &parsed.comments, path, cfg);
        assert(out@ == ruby_found(bytes@, path@, cfg@, parsed@));
        return Some(out);
    }
    if is_erb {
        proof {
            reveal_strlit("rb");
            reveal_strlit("erb");
            assert("rb"@.len() != "erb"@.len());
        }
        let (buffer, map) = match erb::build_buffer(bytes) {
            Some(built) => built,
            None => {
                return None;
            },
        };
        if buffer.len() == 0 {
            return Some(FileScan::default());
        }
        let source = copy_bytes(&buffer);
        let ghost given = source;
        let parsed = parse(source);
        assert(call_ensures(parse, (given,), parsed));
        assert(parses_bytes(parse, buffer@, parsed@));
        let out = erb::scan(bytes, &buffer, &map, &parsed.program, &parsed.comments, path, cfg);
        assert(out@ == erb_file_found(bytes@, path@, cfg@, parsed@));
        return Some(out);
    }
    template::scan(bytes, path, cfg)
}

// ------------------------------------------------------------------------ laws

/// `parse` gives `parsing` of what it is handed.
pub open spec fn parses_as<P: Fn(Vec<u8>) -> ParsedRuby>(
    parse: P,
    parsing: spec_fn(Seq<u8>) -> ParsedV,
) -> bool {
    forall|s: Vec<u8>, p: ParsedRuby| #[trigger]
        call_ensures(parse, (s,), p) ==> p@ == parsing(s@)
}

/// Where the same bytes always parse to the same, a file is scanned as by the
/// scanner of its extension: the Ruby scanner exactly for `rb`, the ERB scanner
/// exactly for `erb`, and the scanner for templates for every other path, one
/// without an extension or with `RB` among them.
pub proof fn a_file_goes_to_the_scanner_of_its_extension<P: Fn(Vec<u8>) -> ParsedRuby>(
    parse: P,
    parsing: spec_fn(Seq<u8>) -> ParsedV,
    bytes: Seq<u8>,
    path: Seq<char>,
    cfg: ScanConfigV,
    out: FileScan,
)
    requires
        parses_as(parse, parsing),
        is_scan(parse, bytes, path, cfg, Some(out)),
    ensures
        out@ == if extension_of(path) == Some("rb"@) {
            ruby_found(bytes, path, cfg, parsing(bytes))
        } else if extension_of(path) == Some("erb"@) {
            erb_file_found(bytes, path, cfg, parsing(erb_buffer(bytes).buf))
        } else {
            template_found(bytes, path, cfg)
        },
{
}

/// An offset inside a copied stretch is translated to the byte that was
/// copied, whatever was pushed after it.
pub proof fn a_copied_byte_translates_to_its_source(segs: Seq<SegV>, i: int, k: int)
    requires
        0 <= i < segs.len(),
        forall|a: int, b: int|
            0 <= a < b < segs.len() ==> (#[trigger] segs[a]).0 + segs[a].1 <= (#[trigger] segs[b]).0,
        0 <= segs[i].0,
        0 <= k < segs[i].1,
        segs[i].0 + k <= u32::MAX,
    ensures
        translated(segs, segs[i].0 + k) == segs[i].2 + k,
{
    last_started(segs, segs.len() as int, i, segs[i].0 + k);
}

proof fn last_started(segs: Seq<SegV>, n: int, i: int, pos: int)
    requires
        0 <= i < n <= segs.len(),
        segs[i].0 <= pos,
        forall|j: int| i < j < n ==> pos < (#[trigger] segs[j]).0,
    ensures
        started(segs, n, pos) == i + 1,
    decreases n,
{
    if n - 1 > i {
        last_started(segs, n - 1, i, pos);
    }
}

} // verus!
