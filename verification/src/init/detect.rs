//! What a project looks like: the locale files, the base locale, the search
//! paths, and the directories that use relative keys.
//!
//! Nothing of the project is executed, so a setting that it computes in Ruby
//! is not detected: a note says so.
use crate::config::{default_relative_roots, default_relative_roots_model};
use crate::data::locale_path::{locale_for_path, locale_in_path};
use crate::init::layout::{
    classify, detect_base_locale, enclosing_root, preview, preview_of, relative_call, root_of,
    ruby_default, ruby_model, shape_of, uses_relative_key, write_target, write_target_of,
    is_read_back, RubyFile, Shape,
};
use crate::scan::{trim_slashes, without_slashes};
use crate::text::{
    concat, decimal, decimal_text, distinct, join, join_of, lists_text, push_text, same_text,
    split_last, split_last_of, starts_with, strip_prefix, texts,
};
use crate::textmap::distinct_sorted;
use vstd::prelude::*;

verus! {

// ------------------------------------------------------------------- the project

/// A source file of a project.
pub struct ProjectSource {
    /// Relative to the root of the project, with slashes.
    pub path: String,
    pub bytes: Vec<u8>,
}

/// What is read of a project.
pub struct Project {
    /// The locale files under each of [`locale_dir_candidates`], relative to
    /// the root of the project, sorted.
    pub locale_files: Vec<Vec<String>>,
    /// The Ruby files that may assign a default locale, in order.
    pub ruby: Vec<RubyFile>,
    /// Those of the directories asked for that exist.
    pub directories: Vec<String>,
    /// The source files under the search paths.
    pub sources: Vec<ProjectSource>,
    /// A config that `migrate-config` could convert.
    pub gem_config: Option<String>,
}

/// What a [`Project`] holds.
pub struct ProjectV {
    pub locale_files: Seq<Seq<Seq<char>>>,
    pub ruby: Seq<(Seq<char>, Seq<char>)>,
    pub directories: Seq<Seq<char>>,
    pub sources: Seq<(Seq<char>, Seq<u8>)>,
    pub gem_config: Option<Seq<char>>,
}

/// What a list of source files holds.
pub open spec fn sources_model(v: Seq<ProjectSource>) -> Seq<(Seq<char>, Seq<u8>)> {
    Seq::new(v.len(), |i: int| (v[i].path@, v[i].bytes@))
}

impl View for Project {
    type V = ProjectV;

    open spec fn view(&self) -> ProjectV {
        ProjectV {
            locale_files: Seq::new(
                self.locale_files@.len(),
                |i: int| texts(self.locale_files@[i]@),
            ),
            ruby: ruby_model(self.ruby@),
            directories: texts(self.directories@),
            sources: sources_model(self.sources@),
            gem_config: match self.gem_config {
                Some(s) => Some(s@),
                None => None,
            },
        }
    }
}

/// Where locale data is looked for, the preferred place first.
pub open spec fn locale_dirs() -> Seq<Seq<char>> {
    seq!["config/locales"@, "locales"@, "app/locales"@]
}

/// Where locale data is looked for, the preferred place first.
pub fn locale_dir_candidates() -> (out: Vec<String>)
    ensures
        texts(out@) == locale_dirs(),
{
    let mut out: Vec<String> = Vec::new();
    out.push("config/locales".to_owned());
    out.push("locales".to_owned());
    out.push("app/locales".to_owned());
    assert(texts(out@) =~= locale_dirs());
    out
}

impl ProjectV {
    /// There is a list per candidate directory, and every file of it lies under
    /// the directory.
    pub open spec fn wf(self) -> bool {
        &&& self.locale_files.len() == locale_dirs().len()
        &&& forall|i: int, j: int|
            0 <= i < self.locale_files.len() && 0 <= j < self.locale_files[i].len() ==> (
            locale_dirs()[i] + "/"@).is_prefix_of(#[trigger] self.locale_files[i][j])
    }
}

/// Build output that lives under a search path.
pub open spec fn exclude_dirs() -> Seq<Seq<char>> {
    seq![
        "app/assets/builds"@,
        "app/assets/build"@,
        "app/webpack"@,
        "app/javascript/node_modules"@,
        "lib/assets"@,
        "lib/node_modules"@,
    ]
}

/// Build output that lives under a search path: whole directories of generated
/// source.
pub fn exclude_candidates() -> (out: Vec<String>)
    ensures
        texts(out@) == exclude_dirs(),
{
    let mut out: Vec<String> = Vec::new();
    out.push("app/assets/builds".to_owned());
    out.push("app/assets/build".to_owned());
    out.push("app/webpack".to_owned());
    out.push("app/javascript/node_modules".to_owned());
    out.push("lib/assets".to_owned());
    out.push("lib/node_modules".to_owned());
    assert(texts(out@) =~= exclude_dirs());
    out
}

/// Whether a file with this extension is read for relative keys.
pub fn is_source_ext(ext: &str) -> (b: bool)
    ensures
        b == (ext@ == "rb"@ || ext@ == "rake"@ || ext@ == "erb"@ || ext@ == "haml"@ || ext@
            == "slim"@ || ext@ == "js"@ || ext@ == "jsx"@ || ext@ == "mjs"@ || ext@ == "es6"@
            || ext@ == "ts"@ || ext@ == "tsx"@ || ext@ == "vue"@),
{
    same_text(ext, "rb") || same_text(ext, "rake") || same_text(ext, "erb") || same_text(
        ext,
        "haml",
    ) || same_text(ext, "slim") || same_text(ext, "js") || same_text(ext, "jsx") || same_text(
        ext,
        "mjs",
    ) || same_text(ext, "es6") || same_text(ext, "ts") || same_text(ext, "tsx") || same_text(
        ext,
        "vue",
    )
}

/// Whether a directory of this name is left out of every walk.
pub fn skips_dir(name: &str) -> (b: bool)
    ensures
        b == (name@ == "node_modules"@ || name@ == "tmp"@ || name@ == "coverage"@ || name@
            == ".git"@ || name@ == ".yardoc"@),
{
    same_text(name, "node_modules") || same_text(name, "tmp") || same_text(name, "coverage")
        || same_text(name, ".git") || same_text(name, ".yardoc")
}

// -------------------------------------------------------------- the read patterns

/// The first candidate directory that holds a locale file, from `i` on.
pub open spec fn first_filled(lists: Seq<Seq<Seq<char>>>, i: int) -> Option<int>
    decreases lists.len() - i,
{
    if i < 0 || i >= lists.len() {
        None
    } else if lists[i].len() > 0 {
        Some(i)
    } else {
        first_filled(lists, i + 1)
    }
}

/// A locale file as it is named under its directory.
pub open spec fn under(dir: Seq<char>, rel: Seq<char>) -> Seq<char> {
    rel.skip(dir.len() as int + 1)
}

/// The extension of a file, `yml` where it has none.
pub open spec fn ext_of(name: Seq<char>) -> Seq<char> {
    match split_last_of(name, '.') {
        Some((_, ext)) => ext,
        None => "yml"@,
    }
}

/// The extensions of the locale files.
pub open spec fn exts_of(dir: Seq<char>, files: Seq<Seq<char>>) -> Seq<Seq<char>> {
    Seq::new(files.len(), |i: int| ext_of(under(dir, files[i])))
}

/// The layouts of the locale files.
pub open spec fn shapes_of(dir: Seq<char>, files: Seq<Seq<char>>) -> Seq<Option<Shape>> {
    Seq::new(files.len(), |i: int| shape_of(under(dir, files[i])))
}

/// A file has the layout and the extension.
pub open spec fn seen(
    shapes: Seq<Option<Shape>>,
    exts: Seq<Seq<char>>,
    shape: Shape,
    ext: Seq<char>,
) -> bool {
    exists|i: int| 0 <= i < shapes.len() && #[trigger] shapes[i] == Some(shape) && exts[i] == ext
}

/// The patterns of one layout, for the first `n` extensions of a list.
pub open spec fn shape_patterns(
    dir: Seq<char>,
    shapes: Seq<Option<Shape>>,
    exts: Seq<Seq<char>>,
    shape: Shape,
    order: Seq<Seq<char>>,
    n: int,
) -> Seq<Seq<char>>
    decreases n,
{
    if n <= 0 {
        Seq::empty()
    } else {
        let before = shape_patterns(dir, shapes, exts, shape, order, n - 1);
        if seen(shapes, exts, shape, order[n - 1]) {
            before.push(shape.pattern_of(dir, order[n - 1]))
        } else {
            before
        }
    }
}

/// The layouts, in order.
pub open spec fn all_shapes() -> Seq<Shape> {
    seq![
        Shape::Flat,
        Shape::Namespaced,
        Shape::LocaleDir,
        Shape::LocaleDirDeep,
        Shape::SubdirFlat,
        Shape::SubdirNamespaced,
    ]
}

/// The patterns of the first `n` layouts.
pub open spec fn layout_patterns(
    dir: Seq<char>,
    shapes: Seq<Option<Shape>>,
    exts: Seq<Seq<char>>,
    n: int,
) -> Seq<Seq<char>>
    decreases n,
{
    if n <= 0 {
        Seq::empty()
    } else {
        layout_patterns(dir, shapes, exts, n - 1) + shape_patterns(
            dir,
            shapes,
            exts,
            all_shapes()[n - 1],
            distinct(exts),
            distinct(exts).len() as int,
        )
    }
}

/// A pattern per layout and extension that occurs; the default where none does.
pub open spec fn read_patterns(dir: Seq<char>, files: Seq<Seq<char>>) -> Seq<Seq<char>> {
    let found = layout_patterns(dir, shapes_of(dir, files), exts_of(dir, files), 6);
    if found.len() == 0 {
        seq![dir + "/%{locale}.yml"@]
    } else {
        found
    }
}

/// How many of the first `n` extensions are `ext`.
pub open spec fn ext_count(exts: Seq<Seq<char>>, ext: Seq<char>, n: int) -> int
    decreases n,
{
    if n <= 0 {
        0
    } else {
        ext_count(exts, ext, n - 1) + if exts[n - 1] == ext {
            1int
        } else {
            0int
        }
    }
}

/// The extension that occurs most among the first `n` of a list, the last one
/// of those that occur as often.
pub open spec fn most_common(exts: Seq<Seq<char>>, order: Seq<Seq<char>>, n: int) -> Seq<char>
    decreases n,
{
    if n <= 0 {
        "yml"@
    } else {
        let best = most_common(exts, order, n - 1);
        if n == 1 || ext_count(exts, order[n - 1], exts.len() as int) >= ext_count(
            exts,
            best,
            exts.len() as int,
        ) {
            order[n - 1]
        } else {
            best
        }
    }
}

/// The extension that most locale files have.
pub open spec fn main_ext(dir: Seq<char>, files: Seq<Seq<char>>) -> Seq<char> {
    let exts = exts_of(dir, files);
    most_common(exts, distinct(exts), distinct(exts).len() as int)
}

struct Layout {
    shapes: Vec<Option<Shape>>,
    exts: Vec<String>,
}

fn layout(dir: &str, files: &Vec<String>) -> (r: Layout)
    requires
        forall|j: int| 0 <= j < files.len() ==> (dir@ + "/"@).is_prefix_of(#[trigger] texts(files@)[j]),
    ensures
        r.shapes@ == shapes_of(dir@, texts(files@)),
        texts(r.exts@) == exts_of(dir@, texts(files@)),
{
    let ghost model = texts(files@);
    let prefix = concat(dir, "/");
    proof {
        reveal_strlit("/");
    }
    let mut shapes: Vec<Option<Shape>> = Vec::new();
    let mut exts: Vec<String> = Vec::new();
    let mut i: usize = 0;
    while i < files.len()
        invariant
            i <= files.len(),
            model == texts(files@),
            prefix@ == dir@ + "/"@,
            prefix@.len() == dir@.len() + 1,
            shapes.len() == i,
            exts.len() == i,
            forall|j: int| 0 <= j < files.len() ==> (dir@ + "/"@).is_prefix_of(#[trigger] model[j]),
            forall|j: int|
                0 <= j < i ==> #[trigger] shapes@[j] == shape_of(under(dir@, model[j])),
            forall|j: int|
                0 <= j < i ==> (#[trigger] exts@[j])@ == ext_of(under(dir@, model[j])),
        decreases files.len() - i,
    {
        assert(model[i as int] == files@[i as int]@);
        let name = match strip_prefix(&files[i], &prefix) {
            Some(name) => name,
            None => String::new(),
        };
        assert(name@ == under(dir@, model[i as int]));
        shapes.push(classify(&name));
        exts.push(
            match split_last(&name, '.') {
                Some((_, ext)) => ext,
                None => "yml".to_owned(),
            },
        );
        i = i + 1;
    }
    assert(shapes@ =~= shapes_of(dir@, model));
    assert(texts(exts@) =~= exts_of(dir@, model));
    Layout { shapes, exts }
}

fn is_seen(l: &Layout, shape: Shape, ext: &str) -> (b: bool)
    requires
        l.shapes.len() == l.exts.len(),
    ensures
        b == seen(l.shapes@, texts(l.exts@), shape, ext@),
{
    let ghost exts = texts(l.exts@);
    let mut i: usize = 0;
    while i < l.shapes.len()
        invariant
            i <= l.shapes.len() == l.exts.len(),
            exts == texts(l.exts@),
            forall|j: int|
                0 <= j < i ==> !(#[trigger] l.shapes@[j] == Some(shape) && exts[j] == ext@),
        decreases l.shapes.len() - i,
    {
        assert(exts[i as int] == l.exts@[i as int]@);
        let same = match l.shapes[i] {
            Some(s) => s == shape,
            None => false,
        };
        if same && same_text(&l.exts[i], ext) {
            assert(l.shapes@[i as int] == Some(shape));
            return true;
        }
        i = i + 1;
    }
    false
}

fn push_patterns(read: &mut Vec<String>, dir: &str, l: &Layout, shape: Shape, order: &Vec<String>)
    requires
        l.shapes.len() == l.exts.len(),
    ensures
        texts(final(read)@) == texts(old(read)@) + shape_patterns(
            dir@,
            l.shapes@,
            texts(l.exts@),
            shape,
            texts(order@),
            order.len() as int,
        ),
{
    let ghost before = texts(read@);
    let ghost sorted = texts(order@);
    let ghost exts = texts(l.exts@);
    let mut i: usize = 0;
    assert(texts(read@) =~= before + shape_patterns(dir@, l.shapes@, exts, shape, sorted, 0));
    while i < order.len()
        invariant
            i <= order.len(),
            l.shapes.len() == l.exts.len(),
            sorted == texts(order@),
            exts == texts(l.exts@),
            texts(read@) == before + shape_patterns(
                dir@,
                l.shapes@,
                exts,
                shape,
                sorted,
                i as int,
            ),
        decreases order.len() - i,
    {
        assert(sorted[i as int] == order@[i as int]@);
        if is_seen(l, shape, &order[i]) {
            push_text(read, shape.pattern(dir, &order[i]));
        }
        i = i + 1;
        assert(texts(read@) =~= before + shape_patterns(
            dir@,
            l.shapes@,
            exts,
            shape,
            sorted,
            i as int,
        ));
    }
}

fn make_patterns(dir: &str, l: &Layout, order: &Vec<String>) -> (read: Vec<String>)
    requires
        l.shapes.len() == l.exts.len(),
        texts(order@) == distinct(texts(l.exts@)),
    ensures
        texts(read@) == layout_patterns(dir@, l.shapes@, texts(l.exts@), 6),
{
    let ghost exts = texts(l.exts@);
    let ghost sorted = texts(order@);
    assert(sorted.len() == order.len());
    let mut read: Vec<String> = Vec::new();
    assert(texts(read@) =~= Seq::empty());
    push_patterns(&mut read, dir, l, Shape::Flat, order);
    push_patterns(&mut read, dir, l, Shape::Namespaced, order);
    push_patterns(&mut read, dir, l, Shape::LocaleDir, order);
    push_patterns(&mut read, dir, l, Shape::LocaleDirDeep, order);
    push_patterns(&mut read, dir, l, Shape::SubdirFlat, order);
    push_patterns(&mut read, dir, l, Shape::SubdirNamespaced, order);
    proof {
        reveal_with_fuel(layout_patterns, 7);
    }
    read
}

fn count_ext(exts: &Vec<String>, ext: &str) -> (n: usize)
    ensures
        n == ext_count(texts(exts@), ext@, exts.len() as int),
{
    let ghost model = texts(exts@);
    let mut n: usize = 0;
    let mut i: usize = 0;
    while i < exts.len()
        invariant
            n <= i <= exts.len(),
            model == texts(exts@),
            n == ext_count(model, ext@, i as int),
        decreases exts.len() - i,
    {
        assert(model[i as int] == exts@[i as int]@);
        if same_text(&exts[i], ext) {
            n = n + 1;
        }
        i = i + 1;
    }
    n
}

fn find_main_ext(exts: &Vec<String>, order: &Vec<String>) -> (ext: String)
    ensures
        ext@ == most_common(texts(exts@), texts(order@), order.len() as int),
{
    let ghost model = texts(exts@);
    let ghost sorted = texts(order@);
    assert(model.len() == exts.len());
    let mut best = "yml".to_owned();
    let mut i: usize = 0;
    while i < order.len()
        invariant
            i <= order.len(),
            model == texts(exts@),
            model.len() == exts.len(),
            sorted == texts(order@),
            best@ == most_common(model, sorted, i as int),
        decreases order.len() - i,
    {
        assert(sorted[i as int] == order@[i as int]@);
        if i == 0 || count_ext(exts, &order[i]) >= count_ext(exts, &best) {
            best = order[i].clone();
        }
        i = i + 1;
    }
    best
}

// ------------------------------------------------------------------ the locales

/// The locales that the first `n` patterns read out of a path.
pub open spec fn locales_read(read: Seq<Seq<char>>, path: Seq<char>, n: int) -> Seq<Seq<char>>
    decreases n,
{
    if n <= 0 {
        Seq::empty()
    } else {
        match locale_in_path(read[n - 1], path) {
            Some(locale) => locales_read(read, path, n - 1).push(locale),
            None => locales_read(read, path, n - 1),
        }
    }
}

/// The locales that the patterns read out of the first `n` files.
pub open spec fn locales_named(read: Seq<Seq<char>>, files: Seq<Seq<char>>, n: int) -> Seq<
    Seq<char>,
>
    decreases n,
{
    if n <= 0 {
        Seq::empty()
    } else {
        locales_named(read, files, n - 1) + locales_read(read, files[n - 1], read.len() as int)
    }
}

/// Those of the first `n` files that no pattern reads.
pub open spec fn unmatched_of(read: Seq<Seq<char>>, files: Seq<Seq<char>>, n: int) -> Seq<Seq<char>>
    decreases n,
{
    if n <= 0 {
        Seq::empty()
    } else if locales_read(read, files[n - 1], read.len() as int).len() == 0 {
        unmatched_of(read, files, n - 1).push(files[n - 1])
    } else {
        unmatched_of(read, files, n - 1)
    }
}

fn match_files(read: &Vec<String>, files: &Vec<String>) -> (r: (Vec<String>, Vec<String>))
    ensures
        texts(r.0@) == locales_named(texts(read@), texts(files@), files.len() as int),
        texts(r.1@) == unmatched_of(texts(read@), texts(files@), files.len() as int),
{
    let ghost patterns = texts(read@);
    let ghost paths = texts(files@);
    assert(patterns.len() == read.len());
    let mut locales: Vec<String> = Vec::new();
    let mut unmatched: Vec<String> = Vec::new();
    let mut i: usize = 0;
    assert(texts(locales@) =~= Seq::empty());
    assert(texts(unmatched@) =~= Seq::empty());
    while i < files.len()
        invariant
            i <= files.len(),
            patterns == texts(read@),
            patterns.len() == read.len(),
            paths == texts(files@),
            texts(locales@) == locales_named(patterns, paths, i as int),
            texts(unmatched@) == unmatched_of(patterns, paths, i as int),
        decreases files.len() - i,
    {
        let rel = &files[i];
        assert(paths[i as int] == rel@);
        let ghost before = texts(locales@);
        let mut matched = false;
        let mut k: usize = 0;
        assert(texts(locales@) =~= before + locales_read(patterns, rel@, 0));
        while k < read.len()
            invariant
                k <= read.len(),
                patterns == texts(read@),
                texts(locales@) == before + locales_read(patterns, rel@, k as int),
                matched == (locales_read(patterns, rel@, k as int).len() > 0),
            decreases read.len() - k,
        {
            assert(patterns[k as int] == read@[k as int]@);
            if let Some(locale) = locale_for_path(&read[k], rel) {
                push_text(&mut locales, locale);
                matched = true;
            }
            k = k + 1;
            assert(texts(locales@) =~= before + locales_read(patterns, rel@, k as int));
        }
        if !matched {
            push_text(&mut unmatched, rel.clone());
        }
        i = i + 1;
    }
    (locales, unmatched)
}

// ---------------------------------------------------------------- the base locale

/// The base locale: what the Ruby of the project assigns, else the only locale,
/// else `en` where it is among the locales or there are none, else the first.
pub open spec fn base_of(assigned: Option<(Seq<char>, Seq<char>)>, locales: Seq<Seq<char>>) -> Seq<
    char,
> {
    match assigned {
        Some((locale, _)) => locale,
        None => if locales.len() == 1 {
            locales[0]
        } else if locales.len() == 0 || locales.contains("en"@) {
            "en"@
        } else {
            locales[0]
        },
    }
}

/// The base locale was only guessed.
pub open spec fn base_is_guessed(
    assigned: Option<(Seq<char>, Seq<char>)>,
    locales: Seq<Seq<char>>,
) -> bool {
    assigned is None && locales.len() > 1 && !locales.contains("en"@)
}

// ----------------------------------------------------------------- the search paths

/// The search paths that exist; the whole project where none does.
pub open spec fn search_paths_of(directories: Seq<Seq<char>>) -> Seq<Seq<char>> {
    let app = if directories.contains("app"@) {
        seq!["app/"@]
    } else {
        Seq::empty()
    };
    let lib = if directories.contains("lib"@) {
        seq!["lib/"@]
    } else {
        Seq::empty()
    };
    if app.len() + lib.len() == 0 {
        seq!["./"@]
    } else {
        app + lib
    }
}

/// The search paths of a project: `app/` and `lib/` where they exist. A key
/// that is used only from `lib/` must not be reported as unused.
pub fn search_paths(directories: &Vec<String>) -> (out: Vec<String>)
    ensures
        texts(out@) == search_paths_of(texts(directories@)),
{
    let mut out: Vec<String> = Vec::new();
    assert(texts(out@) =~= Seq::empty());
    if lists_text(directories, "app") {
        push_text(&mut out, "app/".to_owned());
    }
    if lists_text(directories, "lib") {
        push_text(&mut out, "lib/".to_owned());
    }
    if out.len() == 0 {
        push_text(&mut out, "./".to_owned());
    }
    assert(texts(out@) =~= search_paths_of(texts(directories@)));
    out
}

/// A directory lies under one of the search paths.
pub open spec fn is_searched(paths: Seq<Seq<char>>, dir: Seq<char>) -> bool {
    exists|i: int| 0 <= i < paths.len() && covers(#[trigger] paths[i], dir)
}

/// The search path covers the directory.
pub open spec fn covers(path: Seq<char>, dir: Seq<char>) -> bool {
    path == "./"@ || without_slashes(path).is_prefix_of(dir)
}

/// Those of the first `n` directories that exist and lie under a search path.
pub open spec fn excludes_upto(
    candidates: Seq<Seq<char>>,
    directories: Seq<Seq<char>>,
    paths: Seq<Seq<char>>,
    n: int,
) -> Seq<Seq<char>>
    decreases n,
{
    if n <= 0 {
        Seq::empty()
    } else {
        let before = excludes_upto(candidates, directories, paths, n - 1);
        let dir = candidates[n - 1];
        if directories.contains(dir) && is_searched(paths, dir) {
            before.push(dir)
        } else {
            before
        }
    }
}

fn lies_under_search(paths: &Vec<String>, dir: &str) -> (b: bool)
    ensures
        b == is_searched(texts(paths@), dir@),
{
    let ghost model = texts(paths@);
    let mut i: usize = 0;
    while i < paths.len()
        invariant
            i <= paths.len(),
            model == texts(paths@),
            forall|j: int| 0 <= j < i ==> !covers(#[trigger] model[j], dir@),
        decreases paths.len() - i,
    {
        assert(model[i as int] == paths@[i as int]@);
        if same_text(&paths[i], "./") || starts_with(dir, &trim_slashes(&paths[i])) {
            assert(covers(model[i as int], dir@));
            return true;
        }
        i = i + 1;
    }
    false
}

/// The directories that are left out of a search.
pub fn excluded(directories: &Vec<String>, paths: &Vec<String>) -> (out: Vec<String>)
    ensures
        texts(out@) == excludes_upto(
            exclude_dirs(),
            texts(directories@),
            texts(paths@),
            exclude_dirs().len() as int,
        ),
{
    let candidates = exclude_candidates();
    let ghost model = exclude_dirs();
    assert(model.len() == candidates.len());
    let mut out: Vec<String> = Vec::new();
    let mut i: usize = 0;
    assert(texts(out@) =~= Seq::empty());
    while i < candidates.len()
        invariant
            i <= candidates.len(),
            model == texts(candidates@),
            texts(out@) == excludes_upto(model, texts(directories@), texts(paths@), i as int),
        decreases candidates.len() - i,
    {
        assert(model[i as int] == candidates@[i as int]@);
        if lists_text(directories, &candidates[i]) && lies_under_search(paths, &candidates[i]) {
            push_text(&mut out, candidates[i].clone());
        }
        i = i + 1;
    }
    out
}

// ---------------------------------------------------------------- relative roots

/// A file lies in a directory that is left out.
pub open spec fn is_excluded(exclude: Seq<Seq<char>>, rel: Seq<char>) -> bool {
    exists|i: int| 0 <= i < exclude.len() && (#[trigger] exclude[i]).is_prefix_of(rel)
}

/// The bytes hold a relative key.
pub open spec fn holds_relative_key(bytes: Seq<u8>) -> bool {
    exists|i: int| 0 <= i < bytes.len() && #[trigger] relative_call(bytes, i)
}

/// The root that a source file is evidence for.
pub open spec fn root_shown(source: (Seq<char>, Seq<u8>), exclude: Seq<Seq<char>>) -> Option<
    Seq<char>,
> {
    if holds_relative_key(source.1) && !is_excluded(exclude, source.0) {
        root_of(source.0)
    } else {
        None
    }
}

/// The roots that the first `n` source files are evidence for.
pub open spec fn roots_shown(
    sources: Seq<(Seq<char>, Seq<u8>)>,
    exclude: Seq<Seq<char>>,
    n: int,
) -> Seq<Seq<char>>
    decreases n,
{
    if n <= 0 {
        Seq::empty()
    } else {
        match root_shown(sources[n - 1], exclude) {
            Some(root) => roots_shown(sources, exclude, n - 1).push(root),
            None => roots_shown(sources, exclude, n - 1),
        }
    }
}

/// Those of the first `n` texts that the other list holds, or does not hold.
pub open spec fn picked(
    v: Seq<Seq<char>>,
    others: Seq<Seq<char>>,
    held: bool,
    n: int,
) -> Seq<Seq<char>>
    decreases n,
{
    if n <= 0 {
        Seq::empty()
    } else if others.contains(v[n - 1]) == held {
        picked(v, others, held, n - 1).push(v[n - 1])
    } else {
        picked(v, others, held, n - 1)
    }
}

fn pick(v: &Vec<String>, others: &Vec<String>, held: bool) -> (out: Vec<String>)
    ensures
        texts(out@) == picked(texts(v@), texts(others@), held, v.len() as int),
{
    let ghost model = texts(v@);
    let mut out: Vec<String> = Vec::new();
    let mut i: usize = 0;
    assert(texts(out@) =~= Seq::empty());
    while i < v.len()
        invariant
            i <= v.len(),
            model == texts(v@),
            texts(out@) == picked(model, texts(others@), held, i as int),
        decreases v.len() - i,
    {
        assert(model[i as int] == v@[i as int]@);
        if lists_text(others, &v[i]) == held {
            push_text(&mut out, v[i].clone());
        }
        i = i + 1;
    }
    out
}

/// The default roots that exist.
pub open spec fn default_roots_of(directories: Seq<Seq<char>>) -> Seq<Seq<char>> {
    picked(
        default_relative_roots_model(),
        directories,
        true,
        default_relative_roots_model().len() as int,
    )
}

/// The relative roots: the default ones that exist, and those that a source
/// file is evidence for, sorted.
pub open spec fn relative_roots_of(p: ProjectV, exclude: Seq<Seq<char>>) -> Seq<Seq<char>> {
    distinct(default_roots_of(p.directories) + roots_shown(p.sources, exclude, p.sources.len() as int))
}

/// The relative roots that are not among the default ones that exist, sorted.
pub open spec fn extra_roots_of(p: ProjectV, exclude: Seq<Seq<char>>) -> Seq<Seq<char>> {
    let found = distinct(roots_shown(p.sources, exclude, p.sources.len() as int));
    picked(found, default_roots_of(p.directories), false, found.len() as int)
}

fn file_is_excluded(exclude: &Vec<String>, rel: &str) -> (b: bool)
    ensures
        b == is_excluded(texts(exclude@), rel@),
{
    let ghost model = texts(exclude@);
    let mut i: usize = 0;
    while i < exclude.len()
        invariant
            i <= exclude.len(),
            model == texts(exclude@),
            forall|j: int| 0 <= j < i ==> !(#[trigger] model[j]).is_prefix_of(rel@),
        decreases exclude.len() - i,
    {
        assert(model[i as int] == exclude@[i as int]@);
        if starts_with(rel, &exclude[i]) {
            assert(model[i as int].is_prefix_of(rel@));
            return true;
        }
        i = i + 1;
    }
    false
}

fn find_roots(sources: &Vec<ProjectSource>, exclude: &Vec<String>) -> (found: Vec<String>)
    ensures
        texts(found@) == roots_shown(
            sources_model(sources@),
            texts(exclude@),
            sources.len() as int,
        ),
{
    let ghost model = sources_model(sources@);
    let mut found: Vec<String> = Vec::new();
    let mut i: usize = 0;
    assert(texts(found@) =~= Seq::empty());
    while i < sources.len()
        invariant
            i <= sources.len(),
            model == sources_model(sources@),
            texts(found@) == roots_shown(model, texts(exclude@), i as int),
        decreases sources.len() - i,
    {
        let source = &sources[i];
        assert(model[i as int] == (source.path@, source.bytes@));
        if uses_relative_key(&source.bytes) && !file_is_excluded(exclude, &source.path) {
            if let Some(root) = enclosing_root(&source.path) {
                push_text(&mut found, root);
            }
        }
        i = i + 1;
    }
    found
}

/// The relative roots of a project, and those among them that are not default
/// ones.
pub fn relative_roots(p: &Project, exclude: &Vec<String>) -> (r: (Vec<String>, Vec<String>))
    ensures
        texts(r.0@) == relative_roots_of(p@, texts(exclude@)),
        texts(r.1@) == extra_roots_of(p@, texts(exclude@)),
{
    let ghost v = p@;
    assert(v.sources.len() == p.sources.len());
    let existing = pick(&default_relative_roots(), &p.directories, true);
    let found = find_roots(&p.sources, exclude);
    let sorted = distinct_sorted(&found);
    assert(texts(sorted@).len() == sorted.len());
    let extra = pick(&sorted, &existing, false);
    let mut all = crate::data::load::clone_texts(&existing);
    crate::config::extend_texts(&mut all, &found);
    (distinct_sorted(&all), extra)
}

// ------------------------------------------------------------------ the detection

/// What the project turned out to look like.
pub struct Detected {
    /// The locale directory, relative to the root, or `None` where none held
    /// any data.
    pub locale_dir: Option<String>,
    /// How many locale files lie under it.
    pub files_seen: usize,
    /// Files that no pattern reads.
    pub unmatched: Vec<String>,
    pub read: Vec<String>,
    pub write: String,
    pub locales: Vec<String>,
    pub base_locale: String,
    /// `path:line` of the `default_locale` assignment, where there was one.
    pub base_locale_from: Option<String>,
    pub search_paths: Vec<String>,
    pub exclude: Vec<String>,
    pub relative_roots: Vec<String>,
    /// Those of `relative_roots` that are no default ones.
    pub relative_roots_detected: Vec<String>,
    /// A config that `migrate-config` could convert; that keeps the ignore
    /// lists.
    pub gem_config: Option<String>,
    /// Everything that a human should look at before trusting the file.
    pub notes: Vec<String>,
}

/// What a [`Detected`] holds.
pub struct DetectedV {
    pub locale_dir: Option<Seq<char>>,
    pub files_seen: int,
    pub unmatched: Seq<Seq<char>>,
    pub read: Seq<Seq<char>>,
    pub write: Seq<char>,
    pub locales: Seq<Seq<char>>,
    pub base_locale: Seq<char>,
    pub base_locale_from: Option<Seq<char>>,
    pub search_paths: Seq<Seq<char>>,
    pub exclude: Seq<Seq<char>>,
    pub relative_roots: Seq<Seq<char>>,
    pub relative_roots_detected: Seq<Seq<char>>,
    pub gem_config: Option<Seq<char>>,
    pub notes: Seq<Seq<char>>,
}

/// The text in an optional string.
pub open spec fn optional(s: Option<String>) -> Option<Seq<char>> {
    match s {
        Some(s) => Some(s@),
        None => None,
    }
}

impl View for Detected {
    type V = DetectedV;

    open spec fn view(&self) -> DetectedV {
        DetectedV {
            locale_dir: optional(self.locale_dir),
            files_seen: self.files_seen as int,
            unmatched: texts(self.unmatched@),
            read: texts(self.read@),
            write: self.write@,
            locales: texts(self.locales@),
            base_locale: self.base_locale@,
            base_locale_from: optional(self.base_locale_from),
            search_paths: texts(self.search_paths@),
            exclude: texts(self.exclude@),
            relative_roots: texts(self.relative_roots@),
            relative_roots_detected: texts(self.relative_roots_detected@),
            gem_config: optional(self.gem_config),
            notes: texts(self.notes@),
        }
    }
}

/// A note, where it applies.
pub open spec fn noted(applies: bool, note: Seq<char>) -> Seq<Seq<char>> {
    if applies {
        seq![note]
    } else {
        Seq::empty()
    }
}

/// The note for a project without locale files.
pub open spec fn no_files_note() -> Seq<char> {
    "no locale files under config/locales, locales, app/locales. `data.read` below is the gem's default; point it at the real data."@
}

/// The note for files that no pattern reads.
pub open spec fn unmatched_note(unmatched: Seq<Seq<char>>) -> Seq<char> {
    decimal(unmatched.len())
        + " locale file(s) name no locale under the patterns below, so they are never read: "@
        + preview_of(unmatched)
}

/// The note for a base locale that was only guessed.
pub open spec fn guessed_note(locales: Seq<Seq<char>>) -> Seq<char> {
    "no `config.i18n.default_locale` in the project's Ruby, and none of "@ + join_of(
        locales,
        ", "@,
    ) + " is obviously the base. Assumed "@ + locales[0] + "."@
}

/// The note for a base locale without files.
pub open spec fn mismatch_note(base: Seq<char>, locales: Seq<Seq<char>>) -> Seq<char> {
    "base_locale is "@ + base + ", but the locale files hold "@ + join_of(locales, ", "@)
        + ". One of the two is wrong."@
}

/// The note for a project without a write target.
pub open spec fn no_target_note(dir: Seq<char>) -> Seq<char> {
    "no obvious place to write new keys: no candidate target under "@ + dir
        + " is read back by the patterns below, so `normalize --write` would put keys where nothing looks for them. Set `data.write` by hand."@
}

/// The note for a project without a search path.
pub open spec fn no_search_path_note() -> Seq<char> {
    "neither app/ nor lib/ exists, so `search.paths` is the whole project. Narrow it."@
}

/// What a project looks like.
pub open spec fn detection(p: ProjectV) -> DetectedV {
    let place = first_filled(p.locale_files, 0);
    let locale_dir = match place {
        Some(i) => Some(locale_dirs()[i]),
        None => None,
    };
    let files = match place {
        Some(i) => p.locale_files[i],
        None => Seq::empty(),
    };
    let dir = match locale_dir {
        Some(dir) => dir,
        None => "config/locales"@,
    };
    let read = read_patterns(dir, files);
    let ext = main_ext(dir, files);
    let locales = distinct(locales_named(read, files, files.len() as int));
    let unmatched = unmatched_of(read, files, files.len() as int);
    let assigned = ruby_default(p.ruby, 0);
    let base = base_of(assigned, locales);
    let target = write_target_of(dir, ext, base, read);
    let paths = search_paths_of(p.directories);
    let exclude = excludes_upto(
        exclude_dirs(),
        p.directories,
        paths,
        exclude_dirs().len() as int,
    );
    DetectedV {
        locale_dir,
        files_seen: files.len() as int,
        unmatched,
        read,
        write: match target {
            Some(t) => t,
            None => dir + "/%{locale}."@ + ext,
        },
        locales,
        base_locale: base,
        base_locale_from: match assigned {
            Some((_, at)) => Some(at),
            None => None,
        },
        search_paths: paths,
        exclude,
        relative_roots: relative_roots_of(p, exclude),
        relative_roots_detected: extra_roots_of(p, exclude),
        gem_config: p.gem_config,
        notes: noted(files.len() == 0, no_files_note()) + noted(
            unmatched.len() > 0,
            unmatched_note(unmatched),
        ) + noted(base_is_guessed(assigned, locales), guessed_note(locales)) + noted(
            locales.len() > 0 && !locales.contains(base),
            mismatch_note(base, locales),
        ) + noted(target is None, no_target_note(dir)) + noted(
            !p.directories.contains("app"@) && !p.directories.contains("lib"@),
            no_search_path_note(),
        ),
    }
}

fn note(notes: &mut Vec<String>, text: String)
    ensures
        texts(final(notes)@) == texts(old(notes)@) + noted(true, text@),
{
    let ghost before = texts(notes@);
    notes.push(text);
    assert(texts(notes@) =~= before + seq![text@]);
}

proof fn no_note(notes: Seq<Seq<char>>, text: Seq<char>)
    ensures
        notes + noted(false, text) == notes,
{
    assert(notes + Seq::<Seq<char>>::empty() =~= notes);
}

fn find_locale_dir(p: &Project) -> (r: Option<usize>)
    requires
        p@.wf(),
    ensures
        match r {
            Some(i) => first_filled(p@.locale_files, 0) == Some(i as int) && i
                < p.locale_files.len(),
            None => first_filled(p@.locale_files, 0) is None,
        },
{
    let ghost lists = p@.locale_files;
    assert(lists.len() == p.locale_files.len());
    let mut i: usize = 0;
    while i < p.locale_files.len()
        invariant
            i <= p.locale_files.len(),
            lists == p@.locale_files,
            lists.len() == p.locale_files.len(),
            first_filled(lists, i as int) == first_filled(lists, 0),
        decreases p.locale_files.len() - i,
    {
        assert(lists[i as int] == texts(p.locale_files@[i as int]@));
        if p.locale_files[i].len() > 0 {
            return Some(i);
        }
        i = i + 1;
    }
    None
}

fn choose_base(assigned: &Option<(String, String)>, locales: &Vec<String>) -> (r: (String, bool))
    ensures
        ({
            let from = match *assigned {
                Some((l, at)) => Some((l@, at@)),
                None => None,
            };
            r.0@ == base_of(from, texts(locales@)) && r.1 == base_is_guessed(
                from,
                texts(locales@),
            )
        }),
{
    let ghost model = texts(locales@);
    assert(model.len() == locales.len());
    match assigned {
        Some((locale, _)) => (locale.clone(), false),
        None => {
            if locales.len() == 1 {
                assert(model[0] == locales@[0]@);
                (locales[0].clone(), false)
            } else if locales.len() == 0 || lists_text(locales, "en") {
                ("en".to_owned(), false)
            } else {
                assert(model[0] == locales@[0]@);
                (locales[0].clone(), true)
            }
        },
    }
}

/// Says what a project looks like.
pub fn detect(p: &Project) -> (d: Detected)
    requires
        p@.wf(),
    ensures
        d@ == detection(p@),
{
    let ghost v = p@;
    let mut notes: Vec<String> = Vec::new();
    assert(texts(notes@) =~= Seq::empty());
    let dirs = locale_dir_candidates();
    let place = find_locale_dir(p);
    let none: Vec<String> = Vec::new();
    assert(texts(none@) =~= Seq::empty());
    let (locale_dir, dir, files) = match place {
        Some(i) => {
            assert(v.locale_files[i as int] == texts(p.locale_files@[i as int]@));
            assert(locale_dirs()[i as int] == dirs@[i as int]@);
            assert(forall|j: int|
                0 <= j < v.locale_files[i as int].len() ==> (locale_dirs()[i as int]
                    + "/"@).is_prefix_of(#[trigger] v.locale_files[i as int][j]));
            (Some(dirs[i].clone()), dirs[i].clone(), &p.locale_files[i])
        },
        None => (None, "config/locales".to_owned(), &none),
    };
    let ghost paths = texts(files@);
    assert(paths.len() == files.len());
    let l = layout(&dir, files);
    let order = distinct_sorted(&l.exts);
    assert(distinct(texts(l.exts@)).len() == order.len());
    assert(l.shapes.len() == l.exts.len()) by {
        assert(texts(l.exts@).len() == paths.len());
    }
    let mut read = make_patterns(&dir, &l, &order);
    let ghost found = texts(read@);
    assert(found.len() == read.len());
    if read.len() == 0 {
        read = Vec::new();
        read.push(concat(&dir, "/%{locale}.yml"));
        assert(texts(read@) =~= seq![dir@ + "/%{locale}.yml"@]);
    }
    assert(texts(read@) == read_patterns(dir@, paths));
    if files.len() == 0 {
        note(
            &mut notes,
            "no locale files under config/locales, locales, app/locales. `data.read` below is the gem's default; point it at the real data.".to_owned(),
        );
    } else {
        proof {
            no_note(texts(notes@), no_files_note());
        }
    }
    let (named, unmatched) = match_files(&read, files);
    assert(texts(unmatched@).len() == unmatched.len());
    if unmatched.len() > 0 {
        let mut text = decimal_text(unmatched.len() as u64);
        text.append(
            " locale file(s) name no locale under the patterns below, so they are never read: ",
        );
        text.append(&preview(&unmatched));
        note(&mut notes, text);
    } else {
        proof {
            no_note(texts(notes@), unmatched_note(texts(unmatched@)));
        }
    }
    let locales = distinct_sorted(&named);
    assert(texts(locales@).len() == locales.len());
    let assigned = detect_base_locale(&p.ruby);
    let (base_locale, guessed) = choose_base(&assigned, &locales);
    if guessed {
        assert(texts(locales@)[0] == locales@[0]@);
        let mut text = concat(
            "no `config.i18n.default_locale` in the project's Ruby, and none of ",
            &join(&locales, ", "),
        );
        text.append(" is obviously the base. Assumed ");
        text.append(&locales[0]);
        text.append(".");
        note(&mut notes, text);
    } else {
        proof {
            no_note(texts(notes@), guessed_note(texts(locales@)));
        }
    }
    if locales.len() > 0 && !lists_text(&locales, &base_locale) {
        let mut text = concat("base_locale is ", &base_locale);
        text.append(", but the locale files hold ");
        text.append(&join(&locales, ", "));
        text.append(". One of the two is wrong.");
        note(&mut notes, text);
    } else {
        proof {
            no_note(texts(notes@), mismatch_note(base_locale@, texts(locales@)));
        }
    }
    let ext = find_main_ext(&l.exts, &order);
    let write = match write_target(&dir, &ext, &base_locale, &read) {
        Some(target) => {
            proof {
                no_note(texts(notes@), no_target_note(dir@));
            }
            target
        },
        None => {
            let mut text = concat(
                "no obvious place to write new keys: no candidate target under ",
                &dir,
            );
            text.append(
                " is read back by the patterns below, so `normalize --write` would put keys where nothing looks for them. Set `data.write` by hand.",
            );
            note(&mut notes, text);
            let mut target = concat(&dir, "/%{locale}.");
            target.append(&ext);
            target
        },
    };
    let search = search_paths(&p.directories);
    if !lists_text(&p.directories, "app") && !lists_text(&p.directories, "lib") {
        note(
            &mut notes,
            "neither app/ nor lib/ exists, so `search.paths` is the whole project. Narrow it.".to_owned(),
        );
    } else {
        proof {
            no_note(texts(notes@), no_search_path_note());
        }
    }
    let exclude = excluded(&p.directories, &search);
    let (roots, extra) = relative_roots(p, &exclude);
    let d = Detected {
        locale_dir,
        files_seen: files.len(),
        unmatched,
        read,
        write,
        locales,
        base_locale,
        base_locale_from: match assigned {
            Some((_, at)) => Some(at),
            None => None,
        },
        search_paths: search,
        exclude,
        relative_roots: roots,
        relative_roots_detected: extra,
        gem_config: match &p.gem_config {
            Some(s) => Some(s.clone()),
            None => None,
        },
        notes,
    };
    assert(d@.notes =~= detection(v).notes);
    d
}

// -------------------------------------------------------------------------- laws

/// A key that is written goes where it is found again: a target that is
/// detected is read back, as the base locale, by one of the patterns.
pub proof fn a_detected_target_is_read_back(
    dir: Seq<char>,
    ext: Seq<char>,
    base: Seq<char>,
    read: Seq<Seq<char>>,
)
    requires
        write_target_of(dir, ext, base, read) is Some,
    ensures
        is_read_back(read, write_target_of(dir, ext, base, read)->Some_0, base),
{
}

/// Every locale file is read by one of the patterns, or is listed as one that
/// none reads.
pub proof fn an_unread_file_is_listed(
    read: Seq<Seq<char>>,
    files: Seq<Seq<char>>,
    n: int,
    i: int,
)
    requires
        0 <= i < n <= files.len(),
    ensures
        unmatched_of(read, files, n).contains(files[i]) || exists|k: int|
            0 <= k < read.len() && locale_in_path(#[trigger] read[k], files[i]) is Some,
    decreases n,
{
    let now = unmatched_of(read, files, n);
    let before = unmatched_of(read, files, n - 1);
    if i < n - 1 {
        an_unread_file_is_listed(read, files, n - 1, i);
        if before.contains(files[i]) {
            assert(now[before.index_of(files[i])] == files[i]);
        }
    } else {
        something_is_read(read, files[i], read.len() as int);
        if locales_read(read, files[i], read.len() as int).len() == 0 {
            assert(now[before.len() as int] == files[i]);
        }
    }
}

proof fn something_is_read(read: Seq<Seq<char>>, path: Seq<char>, n: int)
    requires
        0 <= n <= read.len(),
    ensures
        locales_read(read, path, n).len() > 0 ==> exists|k: int|
            0 <= k < read.len() && locale_in_path(#[trigger] read[k], path) is Some,
    decreases n,
{
    if n > 0 {
        something_is_read(read, path, n - 1);
        if locale_in_path(read[n - 1], path) is Some {
            assert(locale_in_path(read[n - 1], path) is Some);
        }
    }
}

} // verus!
