//! Which source files are scanned.
use crate::config::{extend_texts, Config, ConfigV};
use crate::data::load::clone_texts;
use crate::data::route::{add_path, lists_path};
use crate::paths::{
    file_name, file_name_of, join_path, path_under, paths_sorted, relative_to, seen_from,
};
use crate::text::{
    concat, has_char, push_text, same_text, split, split_of, starts_with, swap_char, swap_char_of,
    texts,
};
use aho_corasick::AhoCorasick;
use globset::{Glob, GlobSet, GlobSetBuilder};
use vstd::prelude::*;
use vstd::utf8::*;

verus! {

// ------------------------------------------------------------------------ globs

/// A set of globs of the crate `globset`.
#[verifier::external_type_specification]
#[verifier::external_body]
pub struct ExGlobSet(GlobSet);

/// A set of globs of the crate `globset` that is being put together.
#[verifier::external_type_specification]
#[verifier::external_body]
pub struct ExGlobSetBuilder(GlobSetBuilder);

/// The globs of a set, in the order in which they were added.
pub uninterp spec fn globs_in(set: GlobSet) -> Seq<Seq<char>>;

/// The globs that were added to a set that is being put together.
pub uninterp spec fn globs_added(builder: GlobSetBuilder) -> Seq<Seq<char>>;

/// Why `Glob::new` of the crate `globset` refuses a glob.
pub uninterp spec fn glob_error_of(glob: Seq<char>) -> Option<Seq<char>>;

/// Why `GlobSetBuilder::build` of the crate `globset` refuses globs.
pub uninterp spec fn set_error_of(globs: Seq<Seq<char>>) -> Option<Seq<char>>;

/// The crate `globset` takes the path for one that the glob matches.
pub uninterp spec fn glob_accepts(glob: Seq<char>, path: Seq<char>) -> bool;

/// `GlobSetBuilder::new` of the crate `globset`: no glob was added yet.
#[verifier::external_body]
fn empty_builder() -> (b: GlobSetBuilder)
    ensures
        globs_added(b) == Seq::<Seq<char>>::empty(),
{
    GlobSetBuilder::new()
}

/// `GlobSetBuilder::add` of the crate `globset`, with the glob that `Glob::new`
/// makes of the text. The glob comes behind those added before; where the text
/// is no glob, the named message comes back and nothing is added.
#[verifier::external_body]
fn add_glob(builder: &mut GlobSetBuilder, glob: &str) -> (r: Result<(), String>)
    ensures
        match r {
            Ok(_) => glob_error_of(glob@) is None && globs_added(*final(builder)) == globs_added(
                *old(builder),
            ).push(glob@),
            Err(e) => glob_error_of(glob@) == Some(e@) && *final(builder) == *old(builder),
        },
{
    match Glob::new(glob) {
        Ok(g) => {
            builder.add(g);
            Ok(())
        },
        Err(e) => Err(e.to_string()),
    }
}

/// `GlobSetBuilder::build` of the crate `globset`: a set of the globs that were
/// added, or the named message.
#[verifier::external_body]
fn build_set(builder: &GlobSetBuilder) -> (r: Result<GlobSet, String>)
    ensures
        match r {
            Ok(set) => set_error_of(globs_added(*builder)) is None && globs_in(set) == globs_added(
                *builder,
            ),
            Err(e) => set_error_of(globs_added(*builder)) == Some(e@),
        },
{
    builder.build().map_err(|e| e.to_string())
}

/// One of the globs matches the path.
pub open spec fn any_glob_accepts(globs: Seq<Seq<char>>, path: Seq<char>) -> bool {
    exists|i: int| 0 <= i < globs.len() && glob_accepts(#[trigger] globs[i], path)
}

/// `GlobSet::is_match` of the crate `globset`: whether one of the globs of the
/// set matches the path.
#[verifier::external_body]
fn set_matches(set: &GlobSet, path: &str) -> (b: bool)
    ensures
        b == (exists|i: int|
            0 <= i < globs_in(*set).len() && glob_accepts(#[trigger] globs_in(*set)[i], path@)),
{
    set.is_match(path)
}

/// The globs that one configured glob stands for: itself, and where it holds no
/// `*` also everything below it, because it names a directory.
pub open spec fn glob_variants(glob: Seq<char>) -> Seq<Seq<char>> {
    if glob.contains('*') {
        seq![glob]
    } else {
        seq![glob, glob + "/**"@]
    }
}

/// The globs that the first `n` configured globs stand for, or why one is
/// refused.
pub open spec fn globs_upto(globs: Seq<Seq<char>>, n: nat) -> Result<Seq<Seq<char>>, Seq<char>>
    decreases n,
{
    if n == 0 {
        Ok(Seq::empty())
    } else {
        match globs_upto(globs, (n - 1) as nat) {
            Err(e) => Err(e),
            Ok(before) => match variant_error(glob_variants(globs[n - 1]), 0) {
                Some(e) => Err("bad glob `"@ + globs[n - 1] + "`: "@ + e),
                None => Ok(before + glob_variants(globs[n - 1])),
            },
        }
    }
}

/// Why the first refused of `variants[from..]` is refused.
pub open spec fn variant_error(variants: Seq<Seq<char>>, from: int) -> Option<Seq<char>>
    decreases variants.len() - from,
{
    if from < 0 || from >= variants.len() {
        None
    } else {
        match glob_error_of(variants[from]) {
            Some(e) => Some(e),
            None => variant_error(variants, from + 1),
        }
    }
}

/// The globs of the set that configured globs make, or why there is none.
pub open spec fn glob_set_of(globs: Seq<Seq<char>>) -> Result<Seq<Seq<char>>, Seq<char>> {
    match globs_upto(globs, globs.len()) {
        Err(e) => Err(e),
        Ok(all) => match set_error_of(all) {
            Some(e) => Err(e),
            None => Ok(all),
        },
    }
}

proof fn glob_error_stays(globs: Seq<Seq<char>>, n: nat, m: nat)
    requires
        n <= m,
        globs_upto(globs, n) is Err,
    ensures
        globs_upto(globs, m) == globs_upto(globs, n),
    decreases m,
{
    if n < m {
        glob_error_stays(globs, n, (m - 1) as nat);
    }
}

fn bad_glob(glob: &str, e: &str) -> (out: String)
    ensures
        out@ == "bad glob `"@ + glob@ + "`: "@ + e@,
{
    let mut out = concat("bad glob `", glob);
    out.append("`: ");
    out.append(e);
    out
}

/// Makes a set of configured globs.
pub fn build_globs(globs: &Vec<String>) -> (r: Result<GlobSet, String>)
    ensures
        match r {
            Ok(set) => glob_set_of(texts(globs@)) == Ok::<Seq<Seq<char>>, Seq<char>>(
                globs_in(set),
            ),
            Err(e) => glob_set_of(texts(globs@)) == Err::<Seq<Seq<char>>, Seq<char>>(e@),
        },
{
    let ghost model = texts(globs@);
    assert(model.len() == globs.len());
    let mut builder = empty_builder();
    let mut i: usize = 0;
    while i < globs.len()
        invariant
            i <= globs.len() == model.len(),
            model == texts(globs@),
            globs_upto(model, i as nat) == Ok::<Seq<Seq<char>>, Seq<char>>(globs_added(builder)),
        decreases globs.len() - i,
    {
        let glob = &globs[i];
        assert(model[i as int] == glob@);
        let ghost before = globs_added(builder);
        let ghost variants = glob_variants(glob@);
        assert(variants[0] == glob@);
        assert(variants.len() == 2 ==> variants[1] == glob@ + "/**"@);
        proof {
            reveal_with_fuel(variant_error, 3);
        }
        if let Err(e) = add_glob(&mut builder, glob) {
            proof {
                glob_error_stays(model, (i + 1) as nat, model.len());
            }
            return Err(bad_glob(glob, &e));
        }
        if !has_char(glob, '*') {
            if let Err(e) = add_glob(&mut builder, &concat(glob, "/**")) {
                proof {
                    glob_error_stays(model, (i + 1) as nat, model.len());
                }
                return Err(bad_glob(glob, &e));
            }
        }
        assert(globs_added(builder) =~= before + variants);
        i = i + 1;
    }
    build_set(&builder)
}

/// Whether a name matches one part of a `data.read` pattern that holds a `*`.
/// A part that is no glob matches nothing.
pub fn segment_matches(glob: &str, name: &str) -> (b: bool)
    ensures
        b == (glob_error_of(glob@) is None && set_error_of(seq![glob@]) is None && glob_accepts(
            glob@,
            name@,
        )),
{
    let mut builder = empty_builder();
    if add_glob(&mut builder, glob).is_err() {
        return false;
    }
    assert(globs_added(builder) =~= seq![glob@]);
    match build_set(&builder) {
        Ok(set) => {
            let b = set_matches(&set, name);
            assert(seq![glob@][0] == glob@);
            b
        },
        Err(_) => false,
    }
}

// ------------------------------------------------------------------ the prefilter

/// An automaton of the crate `aho_corasick` that looks for several texts at
/// once.
#[verifier::external_type_specification]
#[verifier::external_body]
pub struct ExAhoCorasick(AhoCorasick);

/// The texts that an automaton looks for.
pub uninterp spec fn needles_in(automaton: AhoCorasick) -> Seq<Seq<char>>;

/// The bytes of a text stand in other bytes at `i`.
pub open spec fn bytes_at(bytes: Seq<u8>, needle: Seq<char>, i: int) -> bool {
    let n = encode_utf8(needle).len();
    0 <= i && i + n <= bytes.len() && bytes.subrange(i, i + n) == encode_utf8(needle)
}

/// One of the texts stands in the bytes.
pub open spec fn holds_any(bytes: Seq<u8>, needles: Seq<Seq<char>>) -> bool {
    exists|k: int, i: int| 0 <= k < needles.len() && #[trigger] bytes_at(bytes, needles[k], i)
}

/// `AhoCorasick::new` of the crate `aho_corasick`: an automaton for the texts.
/// It fails only where the states of the automaton cannot be numbered, so a few
/// short texts are asked for.
#[verifier::external_body]
fn automaton(needles: &Vec<String>) -> (a: AhoCorasick)
    requires
        needles.len() <= 100,
        forall|k: int| 0 <= k < needles.len() ==> (#[trigger] texts(needles@)[k]).len() <= 100,
    ensures
        needles_in(a) == texts(needles@),
{
    AhoCorasick::new(needles).expect("the needles compile")
}

/// `AhoCorasick::is_match` of the crate `aho_corasick`: whether one of the
/// texts stands in the bytes.
#[verifier::external_body]
fn finds_any(a: &AhoCorasick, bytes: &[u8]) -> (b: bool)
    ensures
        b == holds_any(bytes@, needles_in(*a)),
{
    a.is_match(bytes)
}

/// Texts of which every translation call and every magic comment holds one.
pub open spec fn needle_texts() -> Seq<Seq<char>> {
    seq!["t("@, "t "@, "t!"@, "translate"@, "I18n."@, "i18n-tasks-use"@]
}

/// Texts of which every translation call and every magic comment holds one. A
/// file without one of them is never parsed.
pub fn needles() -> (out: Vec<String>)
    ensures
        texts(out@) == needle_texts(),
{
    let mut out: Vec<String> = Vec::new();
    out.push("t(".to_owned());
    out.push("t ".to_owned());
    out.push("t!".to_owned());
    out.push("translate".to_owned());
    out.push("I18n.".to_owned());
    out.push("i18n-tasks-use".to_owned());
    assert(texts(out@) =~= needle_texts());
    out
}

// --------------------------------------------------------------------- the finder

/// Files that are never scanned, whatever the config says.
pub open spec fn always_excluded() -> Seq<Seq<char>> {
    seq![
        "*.jpg"@, "*.jpeg"@, "*.png"@, "*.gif"@, "*.svg"@, "*.ico"@, "*.eot"@, "*.otf"@, "*.ttf"@,
        "*.woff"@, "*.woff2"@, "*.pdf"@, "*.css"@, "*.sass"@, "*.scss"@, "*.less"@, "*.yml"@,
        "*.json"@, "*.zip"@, "*.tar.gz"@, "*.swf"@, "*.flv"@, "*.mp3"@, "*.wav"@, "*.flac"@,
        "*.webm"@, "*.mp4"@, "*.ogg"@, "*.opus"@, "*.webp"@, "*.map"@, "*.xlsx"@,
    ]
}

/// Files that are never scanned, whatever the config says.
pub fn always_exclude() -> (out: Vec<String>)
    ensures
        texts(out@) == always_excluded(),
{
    let names = [
        "*.jpg", "*.jpeg", "*.png", "*.gif", "*.svg", "*.ico", "*.eot", "*.otf", "*.ttf", "*.woff",
        "*.woff2", "*.pdf", "*.css", "*.sass", "*.scss", "*.less", "*.yml", "*.json", "*.zip",
        "*.tar.gz", "*.swf", "*.flv", "*.mp3", "*.wav", "*.flac", "*.webm", "*.mp4", "*.ogg",
        "*.opus", "*.webp", "*.map", "*.xlsx",
    ];
    let ghost model = always_excluded();
    let mut out: Vec<String> = Vec::new();
    let mut i: usize = 0;
    while i < names.len()
        invariant
            i <= names.len() == model.len(),
            out.len() == i,
            forall|j: int| 0 <= j < names@.len() ==> (#[trigger] names@[j])@ == model[j],
            forall|j: int| 0 <= j < i ==> (#[trigger] out@[j])@ == model[j],
        decreases names.len() - i,
    {
        assert(names@[i as int]@ == model[i as int]);
        out.push(names[i].to_owned());
        i = i + 1;
    }
    assert(texts(out@) =~= model);
    out
}

/// Decides which files of a project are scanned.
pub struct Finder {
    pub only: Option<GlobSet>,
    pub exclude: GlobSet,
    pub prefilter: AhoCorasick,
    pub paths: Vec<String>,
    /// Globs see paths relative to it.
    pub root: String,
}

/// What a [`Finder`] goes by.
pub struct FinderV {
    pub only: Option<Seq<Seq<char>>>,
    pub exclude: Seq<Seq<char>>,
    pub needles: Seq<Seq<char>>,
    pub paths: Seq<Seq<char>>,
    pub root: Seq<char>,
}

impl View for Finder {
    type V = FinderV;

    open spec fn view(&self) -> FinderV {
        FinderV {
            only: match self.only {
                Some(set) => Some(globs_in(set)),
                None => None,
            },
            exclude: globs_in(self.exclude),
            needles: needles_in(self.prefilter),
            paths: texts(self.paths@),
            root: self.root@,
        }
    }
}

/// Paths under a directory.
pub open spec fn paths_under(root: Seq<char>, paths: Seq<Seq<char>>) -> Seq<Seq<char>> {
    Seq::new(paths.len(), |i: int| path_under(root, paths[i]))
}

/// What the finder of a configuration goes by, or why there is none. The globs
/// of `only` are tried first.
pub open spec fn finder_of(cfg: ConfigV, root: Seq<char>) -> Result<FinderV, Seq<char>> {
    let only = match cfg.search.only {
        Some(globs) => if globs.len() > 0 {
            match glob_set_of(globs) {
                Ok(set) => Ok(Some(set)),
                Err(e) => Err(e),
            }
        } else {
            Ok(None)
        },
        None => Ok(None),
    };
    match only {
        Err(e) => Err(e),
        Ok(only) => match glob_set_of(cfg.search.exclude + always_excluded()) {
            Err(e) => Err(e),
            Ok(exclude) => Ok(
                FinderV {
                    only,
                    exclude,
                    needles: needle_texts(),
                    paths: paths_under(root, cfg.search.paths),
                    root,
                },
            ),
        },
    }
}

/// The path has no name, or one that starts with a dot.
pub open spec fn is_hidden(path: Seq<char>) -> bool {
    match file_name_of(path) {
        Some(name) => "."@.is_prefix_of(name),
        None => true,
    }
}

impl FinderV {
    /// The path that globs are matched against.
    pub open spec fn matched(self, path: Seq<char>) -> Seq<char> {
        seen_from(path, self.root)
    }

    /// The directory is descended into.
    pub open spec fn enters(self, path: Seq<char>) -> bool {
        !is_hidden(path) && !any_glob_accepts(self.exclude, self.matched(path))
    }

    /// The file is a candidate.
    pub open spec fn takes(self, path: Seq<char>) -> bool {
        self.enters(path) && match self.only {
            Some(globs) => any_glob_accepts(globs, self.matched(path)),
            None => true,
        }
    }
}

/// The source files of a project.
pub struct Discovery {
    pub files: Vec<String>,
    /// How many candidates held no needle.
    pub prefiltered: usize,
}

/// Those of the first `n` files that were read and hold a needle.
pub open spec fn sifted(files: Seq<Seq<char>>, verdicts: Seq<Option<bool>>, n: int) -> Seq<Seq<char>>
    decreases n,
{
    if n <= 0 {
        Seq::empty()
    } else if verdicts[n - 1] == Some(true) {
        sifted(files, verdicts, n - 1).push(files[n - 1])
    } else {
        sifted(files, verdicts, n - 1)
    }
}

/// How many of the first `n` files were read and hold no needle.
pub open spec fn dropped_count(verdicts: Seq<Option<bool>>, n: int) -> int
    decreases n,
{
    if n <= 0 {
        0
    } else {
        dropped_count(verdicts, n - 1) + if verdicts[n - 1] == Some(false) {
            1int
        } else {
            0int
        }
    }
}

/// `out` holds the paths of `v`, sorted, each once.
pub open spec fn lists_paths(out: Seq<Seq<char>>, v: Seq<Seq<char>>) -> bool {
    &&& paths_sorted(out)
    &&& forall|i: int| 0 <= i < v.len() ==> lists_path(out, #[trigger] v[i])
    &&& forall|k: int| 0 <= k < out.len() ==> v.contains(#[trigger] out[k])
}

fn hidden(path: &str) -> (b: bool)
    ensures
        b == is_hidden(path@),
{
    match file_name(path) {
        Some(name) => starts_with(&name, "."),
        None => true,
    }
}

impl Finder {
    /// The finder of a configuration. `search.only` narrows the search, but
    /// `exclude` still applies, and some files are left out whatever the config
    /// says.
    pub fn new(cfg: &Config) -> (r: Result<Finder, String>)
        ensures
            match r {
                Ok(f) => finder_of(cfg@, cfg.root@) == Ok::<FinderV, Seq<char>>(f@),
                Err(e) => finder_of(cfg@, cfg.root@) == Err::<FinderV, Seq<char>>(e@),
            },
    {
        let only = match &cfg.search.only {
            Some(globs) => {
                assert(texts(globs@).len() == globs.len());
                if globs.len() > 0 {
                    match build_globs(globs) {
                        Ok(set) => Some(set),
                        Err(e) => {
                            return Err(e);
                        },
                    }
                } else {
                    None
                }
            },
            None => None,
        };
        let mut excludes = clone_texts(&cfg.search.exclude);
        extend_texts(&mut excludes, &always_exclude());
        let exclude = match build_globs(&excludes) {
            Ok(set) => set,
            Err(e) => {
                return Err(e);
            },
        };
        let mut paths: Vec<String> = Vec::new();
        let mut i: usize = 0;
        while i < cfg.search.paths.len()
            invariant
                i <= cfg.search.paths.len(),
                paths.len() == i,
                forall|j: int|
                    0 <= j < i ==> (#[trigger] paths@[j])@ == path_under(
                        cfg.root@,
                        cfg.search.paths@[j]@,
                    ),
            decreases cfg.search.paths.len() - i,
        {
            paths.push(join_path(&cfg.root, &cfg.search.paths[i]));
            i = i + 1;
        }
        assert(texts(paths@) =~= paths_under(cfg.root@, cfg@.search.paths));
        let list = needles();
        proof {
            reveal_strlit("t(");
            reveal_strlit("t ");
            reveal_strlit("t!");
            reveal_strlit("translate");
            reveal_strlit("I18n.");
            reveal_strlit("i18n-tasks-use");
            assert(texts(list@).len() == list.len());
        }
        Ok(Finder { only, exclude, prefilter: automaton(&list), paths, root: cfg.root.clone() })
    }

    /// The path that the globs are matched against: relative to the root, with
    /// slashes. A path that does not lie under the root is matched whole.
    pub fn match_path(&self, path: &str) -> (out: String)
        ensures
            out@ == self@.matched(path@),
    {
        relative_to(path, &self.root)
    }

    /// Whether a walk descends into a directory: it does unless the directory
    /// is hidden or excluded.
    pub fn enters(&self, path: &str) -> (b: bool)
        ensures
            b == self@.enters(path@),
    {
        !hidden(path) && !set_matches(&self.exclude, &self.match_path(path))
    }

    /// Whether a file is a candidate. A file that is named by `search.paths`
    /// itself goes by the same rule as one that a walk comes across.
    pub fn consider(&self, path: &str) -> (b: bool)
        ensures
            b == self@.takes(path@),
    {
        if !self.enters(path) {
            return false;
        }
        match &self.only {
            Some(set) => set_matches(set, &self.match_path(path)),
            None => true,
        }
    }

    /// Whether a file may hold a translation call.
    pub fn holds_needle(&self, bytes: &[u8]) -> (b: bool)
        ensures
            b == holds_any(bytes@, self@.needles),
    {
        finds_any(&self.prefilter, bytes)
    }
}

/// The paths of candidates, sorted, each once.
pub fn candidates(found: &Vec<String>) -> (out: Vec<String>)
    ensures
        lists_paths(texts(out@), texts(found@)),
{
    let ghost v = texts(found@);
    let mut out: Vec<String> = Vec::new();
    let mut i: usize = 0;
    while i < found.len()
        invariant
            i <= found.len(),
            v == texts(found@),
            paths_sorted(texts(out@)),
            forall|j: int| 0 <= j < i ==> lists_path(texts(out@), #[trigger] v[j]),
            forall|k: int| 0 <= k < out.len() ==> v.contains(#[trigger] texts(out@)[k]),
        decreases found.len() - i,
    {
        assert(v[i as int] == found@[i as int]@);
        let ghost before = texts(out@);
        add_path(&mut out, &found[i]);
        proof {
            let after = texts(out@);
            assert forall|k: int| 0 <= k < out.len() implies v.contains(#[trigger] after[k]) by {
                if after[k] != v[i as int] {
                    let j = before.index_of(after[k]);
                    assert(v.contains(before[j]));
                }
            }
        }
        i = i + 1;
    }
    out
}

/// The files to scan. `verdicts` says of each candidate whether it holds a
/// needle, and is `None` for one that could not be read.
pub fn sift(files: &Vec<String>, verdicts: &Vec<Option<bool>>) -> (d: Discovery)
    requires
        files.len() == verdicts.len(),
    ensures
        texts(d.files@) == sifted(texts(files@), verdicts@, files.len() as int),
        d.prefiltered == dropped_count(verdicts@, files.len() as int),
{
    let ghost model = texts(files@);
    let mut kept: Vec<String> = Vec::new();
    let mut prefiltered: usize = 0;
    let mut i: usize = 0;
    assert(texts(kept@) =~= Seq::empty());
    while i < files.len()
        invariant
            i <= files.len() == verdicts.len(),
            model == texts(files@),
            prefiltered <= i,
            prefiltered == dropped_count(verdicts@, i as int),
            texts(kept@) == sifted(model, verdicts@, i as int),
        decreases files.len() - i,
    {
        assert(model[i as int] == files@[i as int]@);
        match verdicts[i] {
            Some(true) => {
                push_text(&mut kept, files[i].clone());
            },
            Some(false) => {
                prefiltered = prefiltered + 1;
            },
            None => {},
        }
        i = i + 1;
    }
    Discovery { files: kept, prefiltered }
}

// ----------------------------------------------------------- data.read patterns

/// One part of a `data.read` pattern.
pub enum Segment {
    /// `**`: the directory and every directory below it.
    AnyDepth,
    /// A name with a `*` in it.
    Glob(String),
    /// A name.
    Name(String),
}

/// What a [`Segment`] holds.
pub enum SegmentV {
    AnyDepth,
    Glob(Seq<char>),
    Name(Seq<char>),
}

impl View for Segment {
    type V = SegmentV;

    open spec fn view(&self) -> SegmentV {
        match self {
            Segment::AnyDepth => SegmentV::AnyDepth,
            Segment::Glob(s) => SegmentV::Glob(s@),
            Segment::Name(s) => SegmentV::Name(s@),
        }
    }
}

/// What one part between two slashes stands for.
pub open spec fn segment_of(part: Seq<char>) -> SegmentV {
    if part == "**"@ {
        SegmentV::AnyDepth
    } else if part.contains('*') {
        SegmentV::Glob(part)
    } else {
        SegmentV::Name(part)
    }
}

/// The segments of the first `n` parts; an empty part is none.
pub open spec fn segments_upto(parts: Seq<Seq<char>>, n: int) -> Seq<SegmentV>
    decreases n,
{
    if n <= 0 {
        Seq::empty()
    } else if parts[n - 1].len() == 0 {
        segments_upto(parts, n - 1)
    } else {
        segments_upto(parts, n - 1).push(segment_of(parts[n - 1]))
    }
}

/// What a list of segments holds.
pub open spec fn segments_model(v: Seq<Segment>) -> Seq<SegmentV> {
    Seq::new(v.len(), |i: int| v[i]@)
}

/// The segments of a `data.read` pattern, in order. Every one but the last
/// stands for a directory, the last for a file.
pub fn pattern_segments(pattern: &str) -> (out: Vec<Segment>)
    ensures
        ({
            let parts = split_of(swap_char_of(pattern@, '\\', '/'), '/');
            segments_model(out@) == segments_upto(parts, parts.len() as int)
        }),
{
    let parts = split(&swap_char(pattern, '\\', '/'), '/');
    let ghost model = split_of(swap_char_of(pattern@, '\\', '/'), '/');
    assert(model.len() == parts.len());
    let mut out: Vec<Segment> = Vec::new();
    let mut i: usize = 0;
    assert(segments_model(out@) =~= Seq::empty());
    while i < parts.len()
        invariant
            i <= parts.len(),
            model == texts(parts@),
            segments_model(out@) == segments_upto(model, i as int),
        decreases parts.len() - i,
    {
        let part = &parts[i];
        assert(model[i as int] == part@);
        if !part.as_str().is_empty() {
            let ghost before = segments_model(out@);
            let segment = if same_text(part, "**") {
                Segment::AnyDepth
            } else if has_char(part, '*') {
                Segment::Glob(part.clone())
            } else {
                Segment::Name(part.clone())
            };
            out.push(segment);
            assert(segments_model(out@) =~= before.push(segment@));
        }
        i = i + 1;
    }
    out
}

// -------------------------------------------------------------------------- laws

proof fn configured_globs_are_kept(globs: Seq<Seq<char>>, n: nat, i: int)
    requires
        0 <= i < n <= globs.len(),
        globs_upto(globs, n) is Ok,
    ensures
        globs_upto(globs, n)->Ok_0.contains(globs[i]),
    decreases n,
{
    let before = globs_upto(globs, (n - 1) as nat)->Ok_0;
    let now = globs_upto(globs, n)->Ok_0;
    assert(now == before + glob_variants(globs[n - 1]));
    if i < n - 1 {
        configured_globs_are_kept(globs, (n - 1) as nat, i);
        assert(now[before.index_of(globs[i])] == globs[i]);
    } else {
        assert(glob_variants(globs[i])[0] == globs[i]);
        assert(now[before.len() as int] == globs[i]);
    }
}

/// Whatever the config says, a file that one of the fixed globs matches is
/// never scanned.
pub proof fn some_files_are_never_scanned(
    cfg: ConfigV,
    root: Seq<char>,
    path: Seq<char>,
    k: int,
)
    requires
        finder_of(cfg, root) is Ok,
        0 <= k < always_excluded().len(),
        glob_accepts(always_excluded()[k], seen_from(path, root)),
    ensures
        !finder_of(cfg, root)->Ok_0.takes(path),
{
    let globs = cfg.search.exclude + always_excluded();
    let f = finder_of(cfg, root)->Ok_0;
    let at = cfg.search.exclude.len() + k;
    assert(globs[at] == always_excluded()[k]);
    configured_globs_are_kept(globs, globs.len(), at);
    let j = f.exclude.index_of(globs[at]);
    assert(glob_accepts(f.exclude[j], f.matched(path)));
}

/// `search.only` does not bring back a file that `search.exclude` leaves out.
pub proof fn exclude_wins_over_only(cfg: ConfigV, root: Seq<char>, path: Seq<char>, k: int)
    requires
        finder_of(cfg, root) is Ok,
        0 <= k < cfg.search.exclude.len(),
        glob_accepts(cfg.search.exclude[k], seen_from(path, root)),
    ensures
        !finder_of(cfg, root)->Ok_0.takes(path),
{
    let globs = cfg.search.exclude + always_excluded();
    let f = finder_of(cfg, root)->Ok_0;
    assert(globs[k] == cfg.search.exclude[k]);
    configured_globs_are_kept(globs, globs.len(), k);
    let j = f.exclude.index_of(globs[k]);
    assert(glob_accepts(f.exclude[j], f.matched(path)));
}

} // verus!
