//! Which files are scanned.
use crate::config::ConfigV;
use crate::discover::{
    always_excluded, any_glob_accepts, bytes_at, dropped_count, finder_of, glob_accepts,
    glob_set_of, glob_variants, globs_upto, holds_any, is_hidden, needle_texts, pattern_segments,
    segment_of, segments_model, segments_upto, sifted, Segment, SegmentV,
};
use crate::laws::loading::names_are_split_again;
use crate::paths::{path_under, seen_from};
use crate::text::{join_of, swap_char_of, texts};
use vstd::prelude::*;

verus! {

/// A configured glob covers the path: it matches it, or it names a directory
/// above it.
pub open spec fn covers(glob: Seq<char>, path: Seq<char>) -> bool {
    glob_accepts(glob, path) || (!glob.contains('*') && glob_accepts(glob + "/**"@, path))
}

/// One of the globs covers the path.
pub open spec fn one_covers(globs: Seq<Seq<char>>, path: Seq<char>) -> bool {
    exists|i: int| 0 <= i < globs.len() && covers(#[trigger] globs[i], path)
}

/// The kinds of files that are never scanned.
pub open spec fn never_scanned() -> Seq<Seq<char>> {
    seq![
        "css"@, "sass"@, "scss"@, "less"@, "jpg"@, "jpeg"@, "png"@, "gif"@, "svg"@, "ico"@,
        "webp"@, "eot"@, "otf"@, "ttf"@, "woff"@, "woff2"@, "pdf"@, "xlsx"@, "yml"@, "json"@,
        "map"@, "zip"@, "tar.gz"@, "swf"@, "flv"@, "mp3"@, "wav"@, "flac"@, "webm"@, "mp4"@,
        "ogg"@, "opus"@,
    ]
}

proof fn variants_cover(glob: Seq<char>, path: Seq<char>)
    ensures
        any_glob_accepts(glob_variants(glob), path) <==> covers(glob, path),
{
    let v = glob_variants(glob);
    assert(v[0] == glob);
    if !glob.contains('*') {
        assert(v[1] == glob + "/**"@);
    }
    if any_glob_accepts(v, path) {
        let i = choose|i: int| 0 <= i < v.len() && glob_accepts(#[trigger] v[i], path);
        assert(i == 0 || i == 1);
    }
}

proof fn joined_globs(a: Seq<Seq<char>>, b: Seq<Seq<char>>, path: Seq<char>)
    ensures
        any_glob_accepts(a + b, path) <==> any_glob_accepts(a, path) || any_glob_accepts(b, path),
{
    let all = a + b;
    if any_glob_accepts(all, path) {
        let i = choose|i: int| 0 <= i < all.len() && glob_accepts(#[trigger] all[i], path);
        if i < a.len() {
            assert(a[i] == all[i]);
        } else {
            assert(b[i - a.len()] == all[i]);
        }
    }
    if any_glob_accepts(a, path) {
        let i = choose|i: int| 0 <= i < a.len() && glob_accepts(#[trigger] a[i], path);
        assert(all[i] == a[i]);
    }
    if any_glob_accepts(b, path) {
        let i = choose|i: int| 0 <= i < b.len() && glob_accepts(#[trigger] b[i], path);
        assert(all[a.len() + i] == b[i]);
    }
}

proof fn a_set_covers(globs: Seq<Seq<char>>, n: nat, path: Seq<char>)
    requires
        n <= globs.len(),
        globs_upto(globs, n) is Ok,
    ensures
        any_glob_accepts(globs_upto(globs, n)->Ok_0, path) <==> one_covers(
            globs.take(n as int),
            path,
        ),
    decreases n,
{
    let now = globs.take(n as int);
    if n > 0 {
        a_set_covers(globs, (n - 1) as nat, path);
        let last = globs[n - 1];
        variants_cover(last, path);
        joined_globs(globs_upto(globs, (n - 1) as nat)->Ok_0, glob_variants(last), path);
        let before = globs.take(n - 1);
        assert(now =~= before.push(last));
        if one_covers(before, path) {
            let i = choose|i: int| 0 <= i < before.len() && covers(#[trigger] before[i], path);
            assert(now[i] == before[i]);
        }
        if covers(last, path) {
            assert(now[n - 1] == last);
        }
        if one_covers(now, path) && !covers(last, path) {
            let i = choose|i: int| 0 <= i < now.len() && covers(#[trigger] now[i], path);
            assert(before[i] == now[i]);
        }
    }
}

proof fn a_configured_set_covers(globs: Seq<Seq<char>>, path: Seq<char>)
    requires
        glob_set_of(globs) is Ok,
    ensures
        any_glob_accepts(glob_set_of(globs)->Ok_0, path) <==> one_covers(globs, path),
{
    a_set_covers(globs, globs.len(), path);
    assert(globs.take(globs.len() as int) =~= globs);
}

/// A file is scanned exactly where it is not hidden, no glob of the exclusions
/// covers it, neither those of the configuration nor those that always hold,
/// and, where only some files are asked for, one of those globs covers it. A
/// directory is entered by the first two rules alone. Globs see the path from
/// the root.
pub proof fn a_file_is_scanned_exactly_where_the_globs_let_it_pass(
    cfg: ConfigV,
    root: Seq<char>,
    path: Seq<char>,
)
    requires
        finder_of(cfg, root) is Ok,
    ensures
        ({
            let f = finder_of(cfg, root)->Ok_0;
            let rel = seen_from(path, root);
            let open = !is_hidden(path) && !one_covers(cfg.search.exclude, rel) && !one_covers(
                always_excluded(),
                rel,
            );
            &&& f.enters(path) <==> open
            &&& f.takes(path) <==> open && (cfg.search.only is None
                || cfg.search.only->Some_0.len() == 0 || one_covers(cfg.search.only->Some_0, rel))
        }),
{
    let f = finder_of(cfg, root)->Ok_0;
    let rel = seen_from(path, root);
    let a = cfg.search.exclude;
    let b = always_excluded();
    let all = a + b;
    a_configured_set_covers(all, rel);
    assert(one_covers(all, rel) <==> one_covers(a, rel) || one_covers(b, rel)) by {
        if one_covers(all, rel) {
            let i = choose|i: int| 0 <= i < all.len() && covers(#[trigger] all[i], rel);
            if i < a.len() {
                assert(a[i] == all[i]);
            } else {
                assert(b[i - a.len()] == all[i]);
            }
        }
        if one_covers(a, rel) {
            let i = choose|i: int| 0 <= i < a.len() && covers(#[trigger] a[i], rel);
            assert(all[i] == a[i]);
        }
        if one_covers(b, rel) {
            let i = choose|i: int| 0 <= i < b.len() && covers(#[trigger] b[i], rel);
            assert(all[a.len() + i] == b[i]);
        }
    }
    if let Some(only) = cfg.search.only {
        if only.len() > 0 {
            a_configured_set_covers(only, rel);
        }
    }
}

/// The search starts at the paths of the configuration, under the root, and
/// looks for the texts that a translation call or a comment holds.
pub proof fn the_search_starts_at_the_configured_paths(
    cfg: ConfigV,
    root: Seq<char>,
    i: int,
)
    requires
        finder_of(cfg, root) is Ok,
    ensures
        ({
            let f = finder_of(cfg, root)->Ok_0;
            &&& f.paths.len() == cfg.search.paths.len()
            &&& 0 <= i < f.paths.len() ==> f.paths[i] == path_under(root, cfg.search.paths[i])
            &&& f.root == root
            &&& f.needles == needle_texts()
        }),
{
}

/// The names of kinds that are never scanned are exactly the ones of the globs
/// that always hold.
pub proof fn which_kinds_are_never_scanned(kind: Seq<char>)
    requires
        never_scanned().contains(kind),
    ensures
        always_excluded().contains("*."@ + kind),
        always_excluded().len() == never_scanned().len(),
{
    let v = never_scanned();
    let w = always_excluded();
    let i = v.index_of(kind);
    reveal_strlit("*.");
    reveal_strlit("css");
    reveal_strlit("*.css");
    reveal_strlit("sass");
    reveal_strlit("*.sass");
    reveal_strlit("scss");
    reveal_strlit("*.scss");
    reveal_strlit("less");
    reveal_strlit("*.less");
    reveal_strlit("jpg");
    reveal_strlit("*.jpg");
    reveal_strlit("jpeg");
    reveal_strlit("*.jpeg");
    reveal_strlit("png");
    reveal_strlit("*.png");
    reveal_strlit("gif");
    reveal_strlit("*.gif");
    reveal_strlit("svg");
    reveal_strlit("*.svg");
    reveal_strlit("ico");
    reveal_strlit("*.ico");
    reveal_strlit("webp");
    reveal_strlit("*.webp");
    reveal_strlit("eot");
    reveal_strlit("*.eot");
    reveal_strlit("otf");
    reveal_strlit("*.otf");
    reveal_strlit("ttf");
    reveal_strlit("*.ttf");
    reveal_strlit("woff");
    reveal_strlit("*.woff");
    reveal_strlit("woff2");
    reveal_strlit("*.woff2");
    reveal_strlit("pdf");
    reveal_strlit("*.pdf");
    reveal_strlit("xlsx");
    reveal_strlit("*.xlsx");
    reveal_strlit("yml");
    reveal_strlit("*.yml");
    reveal_strlit("json");
    reveal_strlit("*.json");
    reveal_strlit("map");
    reveal_strlit("*.map");
    reveal_strlit("zip");
    reveal_strlit("*.zip");
    reveal_strlit("tar.gz");
    reveal_strlit("*.tar.gz");
    reveal_strlit("swf");
    reveal_strlit("*.swf");
    reveal_strlit("flv");
    reveal_strlit("*.flv");
    reveal_strlit("mp3");
    reveal_strlit("*.mp3");
    reveal_strlit("wav");
    reveal_strlit("*.wav");
    reveal_strlit("flac");
    reveal_strlit("*.flac");
    reveal_strlit("webm");
    reveal_strlit("*.webm");
    reveal_strlit("mp4");
    reveal_strlit("*.mp4");
    reveal_strlit("ogg");
    reveal_strlit("*.ogg");
    reveal_strlit("opus");
    reveal_strlit("*.opus");
    let at: int = if i == 0 { 12 } else if i == 1 { 13 } else if i == 2 { 14 } else if i == 3 {
        15
    } else if i == 4 { 0 } else if i == 5 { 1 } else if i == 6 { 2 } else if i == 7 {
        3
    } else if i == 8 { 4 } else if i == 9 { 5 } else if i == 10 { 29 } else if i == 11 {
        6
    } else if i == 12 { 7 } else if i == 13 { 8 } else if i == 14 { 9 } else if i == 15 {
        10
    } else if i == 16 { 11 } else if i == 17 { 31 } else if i == 18 { 16 } else if i == 19 {
        17
    } else if i == 20 { 30 } else if i == 21 { 18 } else if i == 22 { 19 } else if i == 23 {
        20
    } else if i == 24 { 21 } else if i == 25 { 22 } else if i == 26 { 23 } else if i == 27 {
        24
    } else if i == 28 { 25 } else if i == 29 { 26 } else if i == 30 { 27 } else { 28 };
    assert(w[at] =~= "*."@ + v[i]);
}

// ----------------------------------------------------------------------- sifting

/// Of the candidates, exactly those that were read and hold one of the texts
/// are kept; those that were read and hold none are counted.
pub proof fn exactly_the_files_with_a_needle_are_kept(
    files: Seq<Seq<char>>,
    verdicts: Seq<Option<bool>>,
    n: int,
    file: Seq<char>,
)
    requires
        0 <= n <= files.len(),
        files.len() == verdicts.len(),
    ensures
        sifted(files, verdicts, n).contains(file) <==> exists|i: int|
            0 <= i < n && #[trigger] files[i] == file && verdicts[i] == Some(true),
        0 <= dropped_count(verdicts, n),
        sifted(files, verdicts, n).len() + dropped_count(verdicts, n) <= n,
        (forall|i: int| 0 <= i < n ==> #[trigger] verdicts[i] is Some) ==> sifted(
            files,
            verdicts,
            n,
        ).len() + dropped_count(verdicts, n) == n,
    decreases n,
{
    if n > 0 {
        exactly_the_files_with_a_needle_are_kept(files, verdicts, n - 1, file);
        let before = sifted(files, verdicts, n - 1);
        let now = sifted(files, verdicts, n);
        let verdict = verdicts[n - 1];
        if let Some(b) = verdict {
            assert(verdict == Some(b));
            if b {
                assert(verdict == Some(true));
            } else {
                assert(verdict == Some(false));
            }
        }
        if now.len() > before.len() {
            assert(now[before.len() as int] == files[n - 1]);
            if before.contains(file) {
                assert(now[before.index_of(file)] == file);
            }
            if now.contains(file) && file != files[n - 1] {
                assert(before[now.index_of(file)] == file);
            }
        }
    }
}

/// Bytes with `t(`, `t `, `t!`, `translate`, `I18n.` or the marker of a comment
/// in them are never left out.
pub proof fn no_call_is_left_out(bytes: Seq<u8>, text: Seq<char>, i: int)
    requires
        bytes_at(bytes, text, i),
        text == "t("@ || text == "t "@ || text == "t!"@ || text == "translate"@ || text == "I18n."@
            || text == "i18n-tasks-use"@,
    ensures
        holds_any(bytes, needle_texts()),
{
    let v = needle_texts();
    assert(v[0] == "t("@ && v[1] == "t "@ && v[2] == "t!"@ && v[3] == "translate"@ && v[4]
        == "I18n."@ && v[5] == "i18n-tasks-use"@);
    let k: int = if text == "t("@ {
        0
    } else if text == "t "@ {
        1
    } else if text == "t!"@ {
        2
    } else if text == "translate"@ {
        3
    } else if text == "I18n."@ {
        4
    } else {
        5
    };
    assert(bytes_at(bytes, v[k], i));
}

// ---------------------------------------------------------------------- patterns

proof fn names_are_segments(names: Seq<Seq<char>>, n: int)
    requires
        0 <= n <= names.len(),
        forall|i: int| 0 <= i < names.len() ==> (#[trigger] names[i]).len() > 0,
    ensures
        segments_upto(names, n).len() == n,
        forall|i: int|
            0 <= i < n ==> #[trigger] segments_upto(names, n)[i] == segment_of(names[i]),
    decreases n,
{
    if n > 0 {
        names_are_segments(names, n - 1);
        assert(names[n - 1].len() > 0);
        let before = segments_upto(names, n - 1);
        let now = segments_upto(names, n);
        assert forall|i: int| 0 <= i < n implies #[trigger] now[i] == segment_of(names[i]) by {
            if i < n - 1 {
                assert(now[i] == before[i]);
            }
        }
    }
}

/// A read pattern is followed name by name: two stars stand for directories of
/// any depth, a name with a star for all that it matches, any other for itself.
pub proof fn a_read_pattern_is_followed_name_by_name(
    pattern: &str,
    out: Vec<Segment>,
    names: Seq<Seq<char>>,
    i: int,
)
    requires
        call_ensures(pattern_segments, (pattern,), out),
        0 <= i < names.len(),
        forall|k: int|
            0 <= k < names.len() ==> (#[trigger] names[k]).len() > 0 && !names[k].contains('/'),
        pattern@ == join_of(names, "/"@),
        !pattern@.contains('\\'),
    ensures
        out.len() == names.len(),
        names[i] == "**"@ ==> out@[i]@ == SegmentV::AnyDepth,
        names[i] != "**"@ && names[i].contains('*') ==> out@[i]@ == SegmentV::Glob(names[i]),
        !names[i].contains('*') ==> out@[i]@ == SegmentV::Name(names[i]),
{
    reveal_strlit("/");
    reveal_strlit("**");
    let t = swap_char_of(pattern@, '\\', '/');
    assert(t =~= pattern@) by {
        assert forall|k: int| 0 <= k < t.len() implies t[k] == pattern@[k] by {
            assert(pattern@.contains(pattern@[k]));
        }
    }
    assert("/"@ =~= seq!['/']);
    assert forall|k: int| 0 <= k < names.len() implies !(#[trigger] names[k]).contains('/') by {
        assert(names[k].len() > 0);
    }
    names_are_split_again(names, "/"@, '/');
    assert forall|k: int| 0 <= k < names.len() implies (#[trigger] names[k]).len() > 0 by {
        assert(!names[k].contains('/'));
    }
    names_are_segments(names, names.len() as int);
    let all = segments_model(out@);
    assert(all.len() == out.len());
    assert(all[i] == segment_of(names[i]));
    assert(all[i] == out@[i]@);
    if names[i] == "**"@ {
        assert(names[i][0] == '*');
        assert(names[i].contains(names[i][0]));
    }
}

} // verus!
