//! What is detected of a project.
use crate::config::default_relative_roots_model;
use crate::data::locale_path::locale_in_path;
use crate::init::detect::{
    all_shapes, default_roots_of, detect, detection, exclude_dirs, excludes_upto, ext_count, ext_of,
    exts_of, first_filled, holds_relative_key, is_excluded, is_searched, layout_patterns,
    locales_named, locales_read, main_ext, most_common, picked, root_shown, roots_shown,
    search_paths, search_paths_of, seen, shape_patterns, shapes_of, under, unmatched_of, Detected,
    Project, ProjectV,
};
use crate::init::layout::{
    code_of, default_locale_of, first_default, root_of, ruby_default, shape_of, Shape,
};
use crate::laws::values::one_more_of_a_list;
use crate::scan::without_slashes;
use crate::text::{
    bare_lines, distinct, distinct_is_distinct, position_is_first, position_of, split_of,
    strictly_sorted, texts,
};
use vstd::prelude::*;

verus! {

// ------------------------------------------------------------------ where to look

/// `app/` is searched exactly where the directory `app` exists, and `lib/`
/// exactly where `lib` does; the whole project is searched exactly where
/// neither does. Nothing else is searched, and `app/` comes first.
pub proof fn each_source_directory_is_searched_where_it_exists(p: ProjectV, path: Seq<char>)
    ensures
        ({
            let paths = detection(p).search_paths;
            let app = p.directories.contains("app"@);
            let lib = p.directories.contains("lib"@);
            &&& paths.contains("app/"@) <==> app
            &&& paths.contains("lib/"@) <==> lib
            &&& paths.contains("./"@) <==> !app && !lib
            &&& paths.contains(path) ==> path == "app/"@ || path == "lib/"@ || path == "./"@
            &&& app ==> paths[0] == "app/"@
            &&& paths == search_paths_of(p.directories)
            &&& paths.no_duplicates()
        }),
{
    reveal_strlit("app/");
    reveal_strlit("lib/");
    reveal_strlit("./");
    assert("app/"@[0] != "lib/"@[0] && "app/"@.len() != "./"@.len() && "lib/"@.len()
        != "./"@.len());
    let paths = search_paths_of(p.directories);
    let app = p.directories.contains("app"@);
    let lib = p.directories.contains("lib"@);
    if app {
        assert(paths[0] == "app/"@);
    }
    if lib {
        assert(paths[paths.len() - 1] == "lib/"@);
    }
    if !app && !lib {
        assert(paths[0] == "./"@);
    }
}

/// The directories of generated source.
pub open spec fn generated_dirs() -> Seq<Seq<char>> {
    seq![
        "app/assets/build"@,
        "app/assets/builds"@,
        "app/javascript/node_modules"@,
        "app/webpack"@,
        "lib/assets"@,
        "lib/node_modules"@,
    ]
}

/// The directory lies where sources are searched.
pub open spec fn lies_where_searched(p: ProjectV, dir: Seq<char>) -> bool {
    let app = p.directories.contains("app"@);
    let lib = p.directories.contains("lib"@);
    (app && "app"@.is_prefix_of(dir)) || (lib && "lib"@.is_prefix_of(dir)) || (!app && !lib)
}

proof fn excludes_hold(
    candidates: Seq<Seq<char>>,
    directories: Seq<Seq<char>>,
    paths: Seq<Seq<char>>,
    n: int,
    dir: Seq<char>,
)
    requires
        0 <= n <= candidates.len(),
    ensures
        excludes_upto(candidates, directories, paths, n).contains(dir) <==> candidates.take(
            n,
        ).contains(dir) && directories.contains(dir) && is_searched(paths, dir),
    decreases n,
{
    if n > 0 {
        excludes_hold(candidates, directories, paths, n - 1, dir);
        one_more_of_a_list(candidates, n, dir);
        let before = excludes_upto(candidates, directories, paths, n - 1);
        let now = excludes_upto(candidates, directories, paths, n);
        let last = candidates[n - 1];
        if now.len() > before.len() {
            assert(now[before.len() as int] == last);
            if before.contains(dir) {
                assert(now[before.index_of(dir)] == dir);
            }
            if now.contains(dir) && dir != last {
                assert(before[now.index_of(dir)] == dir);
            }
        }
    }
}

proof fn a_path_without_its_slash(path: Seq<char>, name: Seq<char>)
    requires
        path == name.push('/'),
        name.len() > 0,
        name.last() != '/',
    ensures
        without_slashes(path) == name,
{
    assert(path.drop_last() =~= name);
    assert(without_slashes(name) == name);
}

proof fn searched_is_under_a_path(p: ProjectV, dir: Seq<char>)
    ensures
        is_searched(search_paths_of(p.directories), dir) <==> lies_where_searched(p, dir),
{
    let paths = search_paths_of(p.directories);
    let app = p.directories.contains("app"@);
    let lib = p.directories.contains("lib"@);
    reveal_strlit("app");
    reveal_strlit("lib");
    reveal_strlit("app/");
    reveal_strlit("lib/");
    reveal_strlit("./");
    assert("app/"@ =~= "app"@.push('/'));
    assert("lib/"@ =~= "lib"@.push('/'));
    a_path_without_its_slash("app/"@, "app"@);
    a_path_without_its_slash("lib/"@, "lib"@);
    assert("app/"@.len() != "./"@.len() && "lib/"@.len() != "./"@.len());
    if app {
        assert(paths[0] == "app/"@);
    }
    if lib {
        assert(paths[paths.len() - 1] == "lib/"@);
    }
    if !app && !lib {
        assert(paths[0] == "./"@);
    }
    if is_searched(paths, dir) {
        let i = choose|i: int|
            0 <= i < paths.len() && crate::init::detect::covers(#[trigger] paths[i], dir);
        assert(paths[i] == "app/"@ || paths[i] == "lib/"@ || paths[i] == "./"@);
    }
}

/// A directory is excluded exactly where it holds generated source, exists, and
/// lies where sources are searched.
pub proof fn exactly_the_generated_source_is_excluded(p: ProjectV, dir: Seq<char>)
    ensures
        detection(p).exclude.contains(dir) <==> generated_dirs().contains(dir)
            && p.directories.contains(dir) && lies_where_searched(p, dir),
{
    let all = exclude_dirs();
    let paths = search_paths_of(p.directories);
    let n = all.len() as int;
    excludes_hold(all, p.directories, paths, n, dir);
    searched_is_under_a_path(p, dir);
    assert(all.take(n) =~= all);
    let same = generated_dirs();
    assert(all.contains(dir) <==> same.contains(dir)) by {
        assert(same[0] == all[1] && same[1] == all[0] && same[2] == all[3] && same[3] == all[2]
            && same[4] == all[4] && same[5] == all[5]);
        if all.contains(dir) {
            let i = all.index_of(dir);
            assert(i == 0 || i == 1 || i == 2 || i == 3 || i == 4 || i == 5);
        }
        if same.contains(dir) {
            let i = same.index_of(dir);
            assert(i == 0 || i == 1 || i == 2 || i == 3 || i == 4 || i == 5);
        }
    }
}

// ------------------------------------------------------------------ relative roots

/// The roots that are looked for in every project.
pub open spec fn usual_roots() -> Seq<Seq<char>> {
    seq![
        "app/views"@,
        "app/presenters"@,
        "app/mailers"@,
        "app/helpers"@,
        "app/controllers"@,
    ]
}

/// A source file outside the excluded directories uses a relative key, and lies
/// under the root.
pub open spec fn a_source_speaks_for(p: ProjectV, exclude: Seq<Seq<char>>, root: Seq<char>) -> bool {
    exists|i: int|
        0 <= i < p.sources.len() && holds_relative_key((#[trigger] p.sources[i]).1) && root_of(
            p.sources[i].0,
        ) == Some(root) && !is_excluded(exclude, p.sources[i].0)
}

proof fn picks_hold(
    v: Seq<Seq<char>>,
    others: Seq<Seq<char>>,
    held: bool,
    n: int,
    x: Seq<char>,
)
    requires
        0 <= n <= v.len(),
    ensures
        picked(v, others, held, n).contains(x) <==> v.take(n).contains(x) && others.contains(x)
            == held,
    decreases n,
{
    if n > 0 {
        picks_hold(v, others, held, n - 1, x);
        one_more_of_a_list(v, n, x);
        let before = picked(v, others, held, n - 1);
        let now = picked(v, others, held, n);
        if now.len() > before.len() {
            assert(now[before.len() as int] == v[n - 1]);
            if before.contains(x) {
                assert(now[before.index_of(x)] == x);
            }
            if now.contains(x) && x != v[n - 1] {
                assert(before[now.index_of(x)] == x);
            }
        }
    }
}

proof fn shown_roots_hold(
    sources: Seq<(Seq<char>, Seq<u8>)>,
    exclude: Seq<Seq<char>>,
    n: int,
    root: Seq<char>,
)
    requires
        0 <= n <= sources.len(),
    ensures
        roots_shown(sources, exclude, n).contains(root) <==> exists|i: int|
            0 <= i < n && root_shown(#[trigger] sources[i], exclude) == Some(root),
    decreases n,
{
    if n > 0 {
        shown_roots_hold(sources, exclude, n - 1, root);
        let before = roots_shown(sources, exclude, n - 1);
        let now = roots_shown(sources, exclude, n);
        let last = root_shown(sources[n - 1], exclude);
        if now.len() > before.len() {
            assert(now[before.len() as int] == last->Some_0);
            if before.contains(root) {
                assert(now[before.index_of(root)] == root);
            }
            if now.contains(root) && Some(root) != last {
                assert(before[now.index_of(root)] == root);
            }
        }
    }
}

proof fn a_shown_root_has_a_source(p: ProjectV, exclude: Seq<Seq<char>>, root: Seq<char>)
    ensures
        roots_shown(p.sources, exclude, p.sources.len() as int).contains(root)
            <==> a_source_speaks_for(p, exclude, root),
{
    let n = p.sources.len() as int;
    shown_roots_hold(p.sources, exclude, n, root);
    if a_source_speaks_for(p, exclude, root) {
        let i = choose|i: int|
            0 <= i < p.sources.len() && holds_relative_key((#[trigger] p.sources[i]).1) && root_of(
                p.sources[i].0,
            ) == Some(root) && !is_excluded(exclude, p.sources[i].0);
        assert(root_shown(p.sources[i], exclude) == Some(root));
    }
}

proof fn the_usual_roots_that_exist(directories: Seq<Seq<char>>, root: Seq<char>)
    ensures
        default_roots_of(directories).contains(root) <==> usual_roots().contains(root)
            && directories.contains(root),
{
    let all = default_relative_roots_model();
    let n = all.len() as int;
    picks_hold(all, directories, true, n, root);
    assert(all.take(n) =~= all);
    let same = usual_roots();
    assert(all.contains(root) <==> same.contains(root)) by {
        assert(same[0] == all[4] && same[1] == all[3] && same[2] == all[2] && same[3] == all[1]
            && same[4] == all[0]);
        if all.contains(root) {
            let i = all.index_of(root);
            assert(i == 0 || i == 1 || i == 2 || i == 3 || i == 4);
        }
        if same.contains(root) {
            let i = same.index_of(root);
            assert(i == 0 || i == 1 || i == 2 || i == 3 || i == 4);
        }
    }
}

proof fn joined_lists_hold(a: Seq<Seq<char>>, b: Seq<Seq<char>>, x: Seq<char>)
    ensures
        (a + b).contains(x) <==> a.contains(x) || b.contains(x),
{
    let all = a + b;
    if a.contains(x) {
        assert(all[a.index_of(x)] == x);
    }
    if b.contains(x) {
        assert(all[a.len() + b.index_of(x)] == x);
    }
    if all.contains(x) {
        let i = all.index_of(x);
        if i < a.len() {
            assert(a[i] == x);
        } else {
            assert(b[i - a.len()] == x);
        }
    }
}

/// A directory is a relative root exactly where it is a usual one that exists,
/// or a source under it uses a relative key. Those that only a source speaks
/// for are listed as detected. The roots come in order, each once.
pub proof fn a_root_exists_or_a_source_speaks_for_it(p: ProjectV, root: Seq<char>)
    ensures
        ({
            let d = detection(p);
            let usual = usual_roots().contains(root) && p.directories.contains(root);
            &&& d.relative_roots.contains(root) <==> usual || a_source_speaks_for(
                p,
                d.exclude,
                root,
            )
            &&& d.relative_roots_detected.contains(root) <==> !usual && a_source_speaks_for(
                p,
                d.exclude,
                root,
            )
            &&& strictly_sorted(d.relative_roots)
        }),
{
    let d = detection(p);
    let shown = roots_shown(p.sources, d.exclude, p.sources.len() as int);
    let usual = default_roots_of(p.directories);
    a_shown_root_has_a_source(p, d.exclude, root);
    the_usual_roots_that_exist(p.directories, root);
    distinct_is_distinct(usual + shown);
    joined_lists_hold(usual, shown, root);
    distinct_is_distinct(shown);
    let found = distinct(shown);
    picks_hold(found, usual, false, found.len() as int, root);
    assert(found.take(found.len() as int) =~= found);
}

/// A file in the project itself has no root, a file one level down has the
/// directory for its root, and any other file the first two directories.
pub proof fn a_root_is_at_most_two_directories(
    first: Seq<char>,
    second: Seq<char>,
    rest: Seq<char>,
)
    requires
        !first.contains('/'),
        !second.contains('/'),
    ensures
        root_of(first) is None,
        root_of(first + "/"@ + second) == Some(first),
        root_of(first + "/"@ + second + "/"@ + rest) == Some(first + "/"@ + second),
{
    reveal_strlit("/");
    position_is_first(first, '/');
    assert(split_of(first, '/') =~= seq![first]);
    position_is_first(second, '/');
    let two = first + "/"@ + second;
    split_at_the_first(first, second);
    assert(split_of(second, '/') =~= seq![second]);
    let inner = second + "/"@ + rest;
    split_at_the_first(second, rest);
    split_at_the_first(first, inner);
    assert(first + "/"@ + inner =~= first + "/"@ + second + "/"@ + rest);
    let parts = split_of(first + "/"@ + inner, '/');
    let last = split_of(rest, '/');
    assert(last.len() > 0) by {
        position_is_first(rest, '/');
    }
    assert(parts =~= seq![first] + (seq![second] + last));
    assert(parts[0] == first && parts[1] == second);
}

proof fn split_at_the_first(head: Seq<char>, rest: Seq<char>)
    requires
        !head.contains('/'),
    ensures
        split_of(head + "/"@ + rest, '/') == seq![head] + split_of(rest, '/'),
{
    reveal_strlit("/");
    let all = head + "/"@ + rest;
    let i = position_of(all, '/');
    position_is_first(all, '/');
    assert(all[head.len() as int] == '/');
    if i < head.len() {
        assert(head[i] == '/');
        assert(head.contains('/'));
    }
    assert(all.take(i) =~= head);
    assert(all.skip(i + 1) =~= rest);
}

// -------------------------------------------------------------------- locale files

/// Locale data is taken from `config/locales`, else from `locales`, else from
/// `app/locales`: the first of them that holds a file, and from that one alone.
pub proof fn locale_data_comes_from_the_first_filled_place(p: ProjectV)
    requires
        p.wf(),
    ensures
        ({
            let d = detection(p);
            let first = p.locale_files[0].len();
            let second = p.locale_files[1].len();
            let third = p.locale_files[2].len();
            if first > 0 {
                d.locale_dir == Some("config/locales"@) && d.files_seen == first
            } else if second > 0 {
                d.locale_dir == Some("locales"@) && d.files_seen == second
            } else if third > 0 {
                d.locale_dir == Some("app/locales"@) && d.files_seen == third
            } else {
                d.locale_dir is None && d.files_seen == 0
            }
        }),
{
    let lists = p.locale_files;
    assert(first_filled(lists, 3) is None);
    assert(first_filled(lists, 2) == if lists[2].len() > 0 {
        Some(2int)
    } else {
        None
    });
    assert(first_filled(lists, 1) == if lists[1].len() > 0 {
        Some(1int)
    } else {
        first_filled(lists, 2)
    });
}

/// The files that the locale data is taken from.
pub open spec fn files_of(p: ProjectV) -> Seq<Seq<char>> {
    match first_filled(p.locale_files, 0) {
        Some(i) => p.locale_files[i],
        None => Seq::empty(),
    }
}

/// The directory that they lie under.
pub open spec fn dir_of(p: ProjectV) -> Seq<char> {
    match detection(p).locale_dir {
        Some(dir) => dir,
        None => "config/locales"@,
    }
}

proof fn shape_patterns_hold(
    dir: Seq<char>,
    shapes: Seq<Option<Shape>>,
    exts: Seq<Seq<char>>,
    shape: Shape,
    order: Seq<Seq<char>>,
    n: int,
    ext: Seq<char>,
)
    requires
        0 <= n <= order.len(),
        order.take(n).contains(ext),
        seen(shapes, exts, shape, ext),
    ensures
        shape_patterns(dir, shapes, exts, shape, order, n).contains(shape.pattern_of(dir, ext)),
    decreases n,
{
    if n > 0 {
        one_more_of_a_list(order, n, ext);
        let before = shape_patterns(dir, shapes, exts, shape, order, n - 1);
        let now = shape_patterns(dir, shapes, exts, shape, order, n);
        let want = shape.pattern_of(dir, ext);
        if order[n - 1] == ext {
            assert(now[before.len() as int] == want);
        } else {
            shape_patterns_hold(dir, shapes, exts, shape, order, n - 1, ext);
            assert(now[before.index_of(want)] == want);
        }
    }
}

proof fn layout_patterns_hold(
    dir: Seq<char>,
    shapes: Seq<Option<Shape>>,
    exts: Seq<Seq<char>>,
    n: int,
    k: int,
    ext: Seq<char>,
)
    requires
        0 <= k < n <= 6,
        exts.contains(ext),
        seen(shapes, exts, all_shapes()[k], ext),
    ensures
        layout_patterns(dir, shapes, exts, n).contains(all_shapes()[k].pattern_of(dir, ext)),
    decreases n,
{
    let before = layout_patterns(dir, shapes, exts, n - 1);
    let order = distinct(exts);
    let own = shape_patterns(
        dir,
        shapes,
        exts,
        all_shapes()[n - 1],
        order,
        order.len() as int,
    );
    let want = all_shapes()[k].pattern_of(dir, ext);
    joined_lists_hold(before, own, want);
    if k == n - 1 {
        distinct_is_distinct(exts);
        assert(order.take(order.len() as int) =~= order);
        assert(order.contains(ext));
        shape_patterns_hold(
            dir,
            shapes,
            exts,
            all_shapes()[k],
            order,
            order.len() as int,
            ext,
        );
    } else {
        layout_patterns_hold(dir, shapes, exts, n - 1, k, ext);
    }
}

/// Every locale file of a known layout has the pattern of its layout and of its
/// extension among those that are read.
pub proof fn every_known_layout_is_read(p: ProjectV, i: int)
    requires
        0 <= i < files_of(p).len(),
        shape_of(under(dir_of(p), files_of(p)[i])) is Some,
    ensures
        detection(p).read.contains(
            shape_of(under(dir_of(p), files_of(p)[i]))->Some_0.pattern_of(
                dir_of(p),
                ext_of(under(dir_of(p), files_of(p)[i])),
            ),
        ),
{
    let dir = dir_of(p);
    let files = files_of(p);
    let shapes = shapes_of(dir, files);
    let exts = exts_of(dir, files);
    let shape = shape_of(under(dir, files[i]))->Some_0;
    let ext = ext_of(under(dir, files[i]));
    assert(shapes[i] == Some(shape) && exts[i] == ext);
    assert(seen(shapes, exts, shape, ext));
    assert(exts.contains(ext));
    let k: int = match shape {
        Shape::Flat => 0,
        Shape::Namespaced => 1,
        Shape::LocaleDir => 2,
        Shape::LocaleDirDeep => 3,
        Shape::SubdirFlat => 4,
        Shape::SubdirNamespaced => 5,
    };
    assert(all_shapes()[k] == shape);
    layout_patterns_hold(dir, shapes, exts, 6, k, ext);
    let found = layout_patterns(dir, shapes, exts, 6);
    assert(found.len() > 0) by {
        assert(found[found.index_of(shape.pattern_of(dir, ext))] == shape.pattern_of(dir, ext));
    }
}

proof fn locales_read_hold(read: Seq<Seq<char>>, path: Seq<char>, n: int, locale: Seq<char>)
    requires
        0 <= n <= read.len(),
    ensures
        locales_read(read, path, n).contains(locale) <==> exists|k: int|
            0 <= k < n && locale_in_path(#[trigger] read[k], path) == Some(locale),
        locales_read(read, path, n).len() > 0 <==> exists|k: int|
            0 <= k < n && locale_in_path(#[trigger] read[k], path) is Some,
    decreases n,
{
    if n > 0 {
        locales_read_hold(read, path, n - 1, locale);
        let before = locales_read(read, path, n - 1);
        let now = locales_read(read, path, n);
        let last = locale_in_path(read[n - 1], path);
        if now.len() > before.len() {
            assert(now[before.len() as int] == last->Some_0);
            if before.contains(locale) {
                assert(now[before.index_of(locale)] == locale);
            }
            if now.contains(locale) && Some(locale) != last {
                assert(before[now.index_of(locale)] == locale);
            }
        }
    }
}

/// One of the patterns reads the locale out of one of the files.
pub open spec fn a_file_names(
    read: Seq<Seq<char>>,
    files: Seq<Seq<char>>,
    locale: Seq<char>,
) -> bool {
    exists|i: int, k: int|
        0 <= i < files.len() && 0 <= k < read.len() && locale_in_path(
            #[trigger] read[k],
            #[trigger] files[i],
        ) == Some(locale)
}

proof fn locales_named_hold(
    read: Seq<Seq<char>>,
    files: Seq<Seq<char>>,
    n: int,
    locale: Seq<char>,
)
    requires
        0 <= n <= files.len(),
    ensures
        locales_named(read, files, n).contains(locale) <==> exists|i: int, k: int|
            0 <= i < n && 0 <= k < read.len() && locale_in_path(
                #[trigger] read[k],
                #[trigger] files[i],
            ) == Some(locale),
    decreases n,
{
    if n > 0 {
        locales_named_hold(read, files, n - 1, locale);
        let m = read.len() as int;
        locales_read_hold(read, files[n - 1], m, locale);
        joined_lists_hold(
            locales_named(read, files, n - 1),
            locales_read(read, files[n - 1], m),
            locale,
        );
    }
}

proof fn unmatched_hold(read: Seq<Seq<char>>, files: Seq<Seq<char>>, n: int, file: Seq<char>)
    requires
        0 <= n <= files.len(),
    ensures
        unmatched_of(read, files, n).contains(file) <==> files.take(n).contains(file) && forall|
            k: int,
        |
            0 <= k < read.len() ==> locale_in_path(#[trigger] read[k], file) is None,
    decreases n,
{
    if n > 0 {
        unmatched_hold(read, files, n - 1, file);
        one_more_of_a_list(files, n, file);
        locales_read_hold(read, files[n - 1], read.len() as int, Seq::empty());
        let before = unmatched_of(read, files, n - 1);
        let now = unmatched_of(read, files, n);
        if now.len() > before.len() {
            assert(now[before.len() as int] == files[n - 1]);
            if before.contains(file) {
                assert(now[before.index_of(file)] == file);
            }
            if now.contains(file) && file != files[n - 1] {
                assert(before[now.index_of(file)] == file);
            }
        }
    }
}

/// The locales are exactly those that the patterns read out of the files, in
/// order, and a file is listed as unread exactly where no pattern reads it.
pub proof fn exactly_the_locales_in_the_files_are_found(
    p: ProjectV,
    locale: Seq<char>,
    file: Seq<char>,
)
    ensures
        ({
            let d = detection(p);
            &&& d.locales.contains(locale) <==> a_file_names(d.read, files_of(p), locale)
            &&& strictly_sorted(d.locales)
            &&& d.unmatched.contains(file) <==> files_of(p).contains(file) && forall|k: int|
                0 <= k < d.read.len() ==> locale_in_path(#[trigger] d.read[k], file) is None
        }),
{
    let d = detection(p);
    let files = files_of(p);
    let n = files.len() as int;
    let named = locales_named(d.read, files, n);
    locales_named_hold(d.read, files, n, locale);
    distinct_is_distinct(named);
    unmatched_hold(d.read, files, n, file);
    assert(files.take(n) =~= files);
    assert(d.locales.contains(locale) <==> named.contains(locale));
}

proof fn the_most_common_wins(exts: Seq<Seq<char>>, order: Seq<Seq<char>>, n: int, i: int)
    requires
        0 <= i < n <= order.len(),
    ensures
        ext_count(exts, order[i], exts.len() as int) <= ext_count(
            exts,
            most_common(exts, order, n),
            exts.len() as int,
        ),
        order.contains(most_common(exts, order, n)),
    decreases n,
{
    if n > 1 {
        if i < n - 1 {
            the_most_common_wins(exts, order, n - 1, i);
        } else {
            the_most_common_wins(exts, order, n - 1, 0);
        }
    }
    assert(order.contains(order[n - 1]));
}

/// No extension is more common among the locale files than the one that new
/// files are given.
pub proof fn new_files_have_the_most_common_extension(
    dir: Seq<char>,
    files: Seq<Seq<char>>,
    i: int,
)
    requires
        0 <= i < files.len(),
    ensures
        ({
            let exts = exts_of(dir, files);
            &&& exts.contains(main_ext(dir, files))
            &&& ext_count(exts, ext_of(under(dir, files[i])), exts.len() as int) <= ext_count(
                exts,
                main_ext(dir, files),
                exts.len() as int,
            )
        }),
{
    let exts = exts_of(dir, files);
    let order = distinct(exts);
    distinct_is_distinct(exts);
    assert(exts.contains(exts[i]));
    assert(order.contains(exts[i]));
    let k = order.index_of(exts[i]);
    the_most_common_wins(exts, order, order.len() as int, k);
}

// --------------------------------------------------------------------- base locale

/// The base locale is what the Ruby of the project assigns. Where it assigns
/// none, it is a locale of the files: the only one, or `en` where that is among
/// them; and it is `en` where there are no files.
pub proof fn the_base_locale_is_assigned_or_among_the_locales(p: ProjectV)
    ensures
        ({
            let d = detection(p);
            &&& d.base_locale_from is Some <==> ruby_default(p.ruby, 0) is Some
            &&& ruby_default(p.ruby, 0) matches Some((locale, at)) ==> d.base_locale == locale
                && d.base_locale_from == Some(at)
            &&& d.base_locale_from is None && d.locales.len() > 0 ==> d.locales.contains(
                d.base_locale,
            )
            &&& d.base_locale_from is None && d.locales.contains("en"@) ==> d.base_locale == "en"@
            &&& d.base_locale_from is None && d.locales.len() == 0 ==> d.base_locale == "en"@
        }),
{
    let d = detection(p);
    if d.locales.len() > 0 {
        assert(d.locales.contains(d.locales[0]));
    }
    if d.locales.len() == 1 && d.locales.contains("en"@) {
        assert(d.locales[d.locales.index_of("en"@)] == "en"@);
    }
}

proof fn the_first_line_wins(lines: Seq<Seq<char>>, from: int)
    requires
        0 <= from <= lines.len(),
    ensures
        match first_default(lines, from) {
            Some((locale, line)) => {
                &&& from < line <= lines.len()
                &&& default_locale_of(code_of(lines[line - 1])) == Some(locale)
                &&& forall|k: int|
                    from <= k < line - 1 ==> default_locale_of(
                        code_of(#[trigger] lines[k]),
                    ) is None
            },
            None => forall|k: int|
                from <= k < lines.len() ==> default_locale_of(code_of(#[trigger] lines[k])) is None,
        },
    decreases lines.len() - from,
{
    if from < lines.len() && default_locale_of(code_of(lines[from])) is None {
        the_first_line_wins(lines, from + 1);
    }
}

/// Line `k` of a source assigns the locale outside a comment.
pub open spec fn line_assigns(source: Seq<char>, k: int, locale: Seq<char>) -> bool {
    0 <= k < bare_lines(source).len() && default_locale_of(code_of(bare_lines(source)[k])) == Some(
        locale,
    )
}

/// No line of the source above line `k` assigns a locale.
pub open spec fn none_above(source: Seq<char>, k: int) -> bool {
    forall|m: int, l: Seq<char>| m < k ==> !#[trigger] line_assigns(source, m, l)
}

/// No line of the source assigns a locale.
pub open spec fn assigns_none(source: Seq<char>) -> bool {
    none_above(source, bare_lines(source).len() as int)
}

/// The first assignment of the first file with one counts: no file before it
/// and no line above it assigns a locale. Where none counts, there is none.
pub proof fn the_first_assignment_counts(files: Seq<(Seq<char>, Seq<char>)>, from: int)
    requires
        0 <= from <= files.len(),
    ensures
        match ruby_default(files, from) {
            Some((locale, _)) => exists|i: int, k: int| #[trigger]
                line_assigns(files[i].1, k, locale) && from <= i < files.len() && none_above(
                    files[i].1,
                    k,
                ) && forall|j: int| from <= j < i ==> assigns_none((#[trigger] files[j]).1),
            None => forall|j: int|
                from <= j < files.len() ==> assigns_none((#[trigger] files[j]).1),
        },
    decreases files.len() - from,
{
    if from < files.len() {
        let source = files[from].1;
        let lines = bare_lines(source);
        the_first_line_wins(lines, 0);
        match first_default(lines, 0) {
            Some((locale, line)) => {
                assert(none_above(source, line - 1));
                assert(ruby_default(files, from)->Some_0.0 == locale);
                assert(line_assigns(files[from].1, line - 1, locale));
            },
            None => {
                the_first_assignment_counts(files, from + 1);
                assert(assigns_none(source));
                assert(ruby_default(files, from) == ruby_default(files, from + 1));
                if let Some((locale, _)) = ruby_default(files, from + 1) {
                    let (i, k) = choose|i: int, k: int| #[trigger]
                        line_assigns(files[i].1, k, locale) && from + 1 <= i < files.len()
                            && none_above(files[i].1, k) && forall|j: int|
                            from + 1 <= j < i ==> assigns_none((#[trigger] files[j]).1);
                    assert(line_assigns(files[i].1, k, locale));
                }
            },
        }
    }
}

/// The code of a line ends where a comment starts: it holds no `#`, and the
/// line goes on with one where it goes on.
pub proof fn code_ends_where_a_comment_starts(line: Seq<char>)
    ensures
        code_of(line).is_prefix_of(line),
        !code_of(line).contains('#'),
        code_of(line).len() < line.len() ==> line[code_of(line).len() as int] == '#',
{
    position_is_first(line, '#');
    let code = code_of(line);
    assert(line.subrange(0, code.len() as int) =~= code);
    if code.contains('#') {
        let k = code.index_of('#');
        assert(line[k] == '#');
    }
}

// --------------------------------------------------------------------------- notes

/// A detection without a note found locale files, reads every one of them, has
/// a base locale with files, and has sources to search.
pub proof fn without_a_note_all_is_well(p: ProjectV)
    requires
        detection(p).notes.len() == 0,
    ensures
        ({
            let d = detection(p);
            &&& d.files_seen > 0
            &&& d.unmatched.len() == 0
            &&& d.locales.len() > 0 ==> d.locales.contains(d.base_locale)
            &&& p.directories.contains("app"@) || p.directories.contains("lib"@)
        }),
{
}

/// What is detected of a project is what is said of it here: it is searched in
/// the source directories that it has.
pub proof fn a_project_is_searched_where_its_sources_are(
    p: &Project,
    d: Detected,
    directories: &Vec<String>,
    paths: Vec<String>,
)
    requires
        call_ensures(detect, (p,), d),
        call_ensures(search_paths, (directories,), paths),
    ensures
        d@.search_paths.contains("app/"@) <==> p@.directories.contains("app"@),
        d@.search_paths.contains("lib/"@) <==> p@.directories.contains("lib"@),
        texts(directories@) == p@.directories ==> texts(paths@) == d@.search_paths,
{
    each_source_directory_is_searched_where_it_exists(p@, "app/"@);
}

} // verus!
