//! What a plan does to the files, and what its report says of it.
use crate::data::emit::{emitted, sorted_level};
use crate::data::load::LocaleTree;
use crate::data::route::Destination;
use crate::report::normalize::{
    built_upto, change_of, changes_by, changes_shown, changes_upto, deletions_upto, displays,
    file_text, in_display_order, is_written, others_upto, with_deletions, with_destinations,
    with_locale, Action, FileChangeV, PlanV, PlannedFileV,
};
use crate::text::{distinct, distinct_is_distinct, strictly_sorted, text_lt, texts};
use vstd::prelude::*;

verus! {

// -------------------------------------------------------------------- one change

/// What a file holds once the change is made; no change leaves it as it is.
pub open spec fn made(current: Option<Seq<char>>, change: Option<FileChangeV>) -> Option<Seq<char>> {
    match change {
        None => current,
        Some(c) => match c.action {
            Action::Create => Some(c.after),
            Action::Update => Some(c.after),
            Action::Delete => None,
        },
    }
}

/// Making the change of a planned file leaves the file as planned. A change is
/// a creation exactly where there was no file, and shows what the file held.
pub proof fn a_change_brings_a_file_to_its_plan(
    root: Seq<char>,
    file: PlannedFileV,
    current: Option<Seq<char>>,
)
    ensures
        made(current, change_of(root, file, current)) == file.after,
        change_of(root, file, current) matches Some(c) ==> {
            &&& c.path == file.path
            &&& c.locale == file.locale
            &&& c.action == Action::Create ==> current is None
            &&& c.action == Action::Update ==> current is Some && current != file.after
            &&& c.action == Action::Delete <==> file.after is None
            &&& c.before == match current {
                Some(s) => s,
                None => Seq::empty(),
            }
        },
        change_of(root, file, current) is None <==> file.after is Some && current == file.after,
{
}

// ------------------------------------------------------------------- all changes

proof fn changes_hold(
    root: Seq<char>,
    files: Seq<PlannedFileV>,
    current: Seq<Option<Seq<char>>>,
    n: int,
    c: FileChangeV,
)
    requires
        0 <= n <= files.len(),
        files.len() == current.len(),
    ensures
        changes_upto(root, files, current, n).contains(c) <==> exists|i: int|
            0 <= i < n && change_of(root, #[trigger] files[i], current[i]) == Some(c),
    decreases n,
{
    if n > 0 {
        changes_hold(root, files, current, n - 1, c);
        let before = changes_upto(root, files, current, n - 1);
        let now = changes_upto(root, files, current, n);
        let last = change_of(root, files[n - 1], current[n - 1]);
        if now.len() > before.len() {
            assert(now[before.len() as int] == last->Some_0);
            if before.contains(c) {
                assert(now[before.index_of(c)] == c);
            }
            if now.contains(c) && Some(c) != last {
                assert(before[now.index_of(c)] == c);
            }
        }
    }
}

proof fn shown_changes_hold(v: Seq<FileChangeV>, n: int, display: Seq<char>, c: FileChangeV)
    requires
        0 <= n <= v.len(),
    ensures
        changes_shown(v, n, display).contains(c) <==> v.take(n).contains(c) && c.display == display,
    decreases n,
{
    if n > 0 {
        shown_changes_hold(v, n - 1, display, c);
        let a = v.take(n - 1);
        let b = v.take(n);
        let last = v[n - 1];
        assert(b =~= a.push(last));
        if a.contains(c) {
            assert(b[a.index_of(c)] == c);
        }
        assert(b[n - 1] == last);
        if b.contains(c) && c != last {
            assert(a[b.index_of(c)] == c);
        }
        let before = changes_shown(v, n - 1, display);
        let now = changes_shown(v, n, display);
        if now.len() > before.len() {
            assert(now[before.len() as int] == last);
            if before.contains(c) {
                assert(now[before.index_of(c)] == c);
            }
            if now.contains(c) && c != last {
                assert(before[now.index_of(c)] == c);
            }
        }
    }
}

proof fn changes_path_by_path(v: Seq<FileChangeV>, paths: Seq<Seq<char>>, n: int, c: FileChangeV)
    requires
        0 <= n <= paths.len(),
    ensures
        changes_by(v, paths, n).contains(c) <==> v.contains(c) && paths.take(n).contains(c.display),
    decreases n,
{
    if n > 0 {
        changes_path_by_path(v, paths, n - 1, c);
        let before = changes_by(v, paths, n - 1);
        let own = changes_shown(v, v.len() as int, paths[n - 1]);
        shown_changes_hold(v, v.len() as int, paths[n - 1], c);
        assert(v.take(v.len() as int) =~= v);
        crate::laws::values::one_more_of_a_list(paths, n, c.display);
        let now = before + own;
        if before.contains(c) {
            assert(now[before.index_of(c)] == c);
        }
        if own.contains(c) {
            assert(now[before.len() + own.index_of(c)] == c);
        }
        if now.contains(c) && !before.contains(c) {
            let i = now.index_of(c);
            if i < before.len() {
                assert(before[i] == c);
            }
            assert(own[i - before.len()] == c);
        }
    }
}

/// Each printed path comes before or with every later one.
pub open spec fn in_order(v: Seq<FileChangeV>) -> bool {
    forall|i: int, j: int|
        0 <= i < j < v.len() ==> (#[trigger] v[i]).display == (#[trigger] v[j]).display || text_lt(
            v[i].display,
            v[j].display,
        )
}

proof fn shown_changes_print_the_path(v: Seq<FileChangeV>, n: int, display: Seq<char>)
    requires
        0 <= n <= v.len(),
    ensures
        forall|i: int|
            0 <= i < changes_shown(v, n, display).len() ==> (#[trigger] changes_shown(
                v,
                n,
                display,
            )[i]).display == display,
    decreases n,
{
    if n > 0 {
        shown_changes_print_the_path(v, n - 1, display);
    }
}

proof fn changes_come_in_order(v: Seq<FileChangeV>, paths: Seq<Seq<char>>, n: int)
    requires
        0 <= n <= paths.len(),
        strictly_sorted(paths),
    ensures
        in_order(changes_by(v, paths, n)),
        forall|i: int|
            0 <= i < changes_by(v, paths, n).len() ==> exists|k: int|
                0 <= k < n && paths[k] == (#[trigger] changes_by(v, paths, n)[i]).display,
    decreases n,
{
    if n > 0 {
        changes_come_in_order(v, paths, n - 1);
        let before = changes_by(v, paths, n - 1);
        let own = changes_shown(v, v.len() as int, paths[n - 1]);
        shown_changes_print_the_path(v, v.len() as int, paths[n - 1]);
        let now = before + own;
        assert forall|i: int| 0 <= i < now.len() implies exists|k: int|
            0 <= k < n && paths[k] == (#[trigger] now[i]).display by {
            if i < before.len() {
                let k = choose|k: int| 0 <= k < n - 1 && paths[k] == before[i].display;
                assert(paths[k] == now[i].display);
            } else {
                assert(own[i - before.len()].display == paths[n - 1]);
                assert(paths[n - 1] == now[i].display);
            }
        }
        assert forall|i: int, j: int| 0 <= i < j < now.len() implies (#[trigger] now[i]).display == (
        #[trigger] now[j]).display || text_lt(now[i].display, now[j].display) by {
            if j < before.len() {
                assert(now[i] == before[i] && now[j] == before[j]);
            } else {
                assert(own[j - before.len()].display == paths[n - 1]);
                if i < before.len() {
                    let k = choose|k: int| 0 <= k < n - 1 && paths[k] == before[i].display;
                    assert(text_lt(paths[k], paths[n - 1]));
                } else {
                    assert(own[i - before.len()].display == paths[n - 1]);
                }
            }
        }
    }
}

/// The report holds the change of every planned file that differs from its
/// plan, and nothing else, in the order of the printed paths.
pub proof fn exactly_the_files_that_differ_are_reported(
    root: Seq<char>,
    files: Seq<PlannedFileV>,
    current: Seq<Option<Seq<char>>>,
    c: FileChangeV,
)
    requires
        files.len() == current.len(),
    ensures
        ({
            let report = in_display_order(changes_upto(root, files, current, files.len() as int));
            &&& report.contains(c) <==> exists|i: int|
                0 <= i < files.len() && change_of(root, #[trigger] files[i], current[i]) == Some(c)
            &&& in_order(report)
        }),
{
    let v = changes_upto(root, files, current, files.len() as int);
    let shown = displays(v);
    let paths = distinct(shown);
    let n = paths.len() as int;
    changes_hold(root, files, current, files.len() as int, c);
    distinct_is_distinct(shown);
    changes_path_by_path(v, paths, n, c);
    assert(paths.take(n) =~= paths);
    if v.contains(c) {
        let i = v.index_of(c);
        assert(shown[i] == c.display);
        assert(shown.contains(c.display));
        assert(paths.contains(c.display));
    }
    changes_come_in_order(v, paths, n);
}

/// The deletions of a report are its changes that delete a file.
pub proof fn the_deletions_are_the_changes_that_delete(v: Seq<FileChangeV>, n: int, c: FileChangeV)
    requires
        0 <= n <= v.len(),
    ensures
        deletions_upto(v, n).contains(c) <==> v.take(n).contains(c) && c.action == Action::Delete,
    decreases n,
{
    if n > 0 {
        the_deletions_are_the_changes_that_delete(v, n - 1, c);
        let a = v.take(n - 1);
        let b = v.take(n);
        let last = v[n - 1];
        assert(b =~= a.push(last));
        if a.contains(c) {
            assert(b[a.index_of(c)] == c);
        }
        assert(b[n - 1] == last);
        if b.contains(c) && c != last {
            assert(a[b.index_of(c)] == c);
        }
        let before = deletions_upto(v, n - 1);
        let now = deletions_upto(v, n);
        if now.len() > before.len() {
            assert(now[before.len() as int] == last);
            if before.contains(c) {
                assert(now[before.index_of(c)] == c);
            }
            if now.contains(c) && c != last {
                assert(before[now.index_of(c)] == c);
            }
        }
    }
}

// ---------------------------------------------------------------------- the plan

/// The plan without anything else about it: files with a text or to delete.
spec fn starts_with(now: PlanV, before: PlanV) -> bool {
    before.files.len() <= now.files.len() && forall|i: int|
        0 <= i < before.files.len() ==> #[trigger] now.files[i] == before.files[i]
}

proof fn destinations_are_planned(
    keep_order: bool,
    locale: Seq<char>,
    tree: LocaleTree,
    dests: Seq<Destination>,
    n: int,
    before: PlanV,
)
    requires
        0 <= n <= dests.len(),
        with_destinations(keep_order, locale, tree, dests, n, before) is Ok,
    ensures
        ({
            let now = with_destinations(keep_order, locale, tree, dests, n, before)->Ok_0;
            &&& starts_with(now, before)
            &&& now.files.len() == before.files.len() + n
            &&& forall|i: int|
                0 <= i < n ==> now.files[before.files.len() + i] == (PlannedFileV {
                    path: (#[trigger] dests[i]).path@,
                    locale,
                    after: Some(file_text(keep_order, locale, tree, texts(dests[i].keys@))),
                })
        }),
    decreases n,
{
    if n > 0 {
        destinations_are_planned(keep_order, locale, tree, dests, n - 1, before);
    }
}

proof fn deletions_are_planned(
    locale: Seq<char>,
    tree: LocaleTree,
    dests: Seq<Destination>,
    origin: Seq<Seq<char>>,
    n: int,
    before: PlanV,
    path: Seq<char>,
)
    requires
        0 <= n <= origin.len(),
        with_deletions(locale, tree, dests, origin, n, before) is Ok,
    ensures
        ({
            let now = with_deletions(locale, tree, dests, origin, n, before)->Ok_0;
            let gone = PlannedFileV { path, locale, after: None };
            &&& starts_with(now, before)
            &&& now.files.skip(before.files.len() as int).contains(gone) <==> origin.take(
                n,
            ).contains(path) && !is_written(dests, path)
            &&& forall|i: int|
                before.files.len() <= i < now.files.len() ==> (#[trigger] now.files[i]).after is None
        }),
    decreases n,
{
    let k = before.files.len() as int;
    let gone = PlannedFileV { path, locale, after: None };
    if n > 0 {
        deletions_are_planned(locale, tree, dests, origin, n - 1, before, path);
        crate::laws::values::one_more_of_a_list(origin, n, path);
        let prev = with_deletions(locale, tree, dests, origin, n - 1, before)->Ok_0;
        let now = with_deletions(locale, tree, dests, origin, n, before)->Ok_0;
        let a = prev.files.skip(k);
        let b = now.files.skip(k);
        if now.files.len() > prev.files.len() {
            let last = PlannedFileV { path: origin[n - 1], locale, after: None };
            assert(b =~= a.push(last));
            assert(b[a.len() as int] == last);
            if a.contains(gone) {
                assert(b[a.index_of(gone)] == gone);
            }
            if b.contains(gone) && gone != last {
                assert(a[b.index_of(gone)] == gone);
            }
            if path == origin[n - 1] {
                assert(b.contains(gone));
            }
        } else {
            assert(a =~= b);
        }
    } else {
        assert(before.files.skip(k) =~= Seq::empty());
    }
}

/// The plan of a locale writes each of its destinations with the text of its
/// keys, and deletes a file exactly where the locale had data in it and no
/// destination has its path.
pub proof fn a_locale_writes_its_destinations_and_deletes_what_is_left_empty(
    keep_order: bool,
    locale: Seq<char>,
    tree: LocaleTree,
    dests: Seq<Destination>,
    origin: Seq<Seq<char>>,
    before: PlanV,
    path: Seq<char>,
    i: int,
)
    requires
        with_locale(keep_order, locale, tree, dests, origin, before) is Ok,
    ensures
        ({
            let now = with_locale(keep_order, locale, tree, dests, origin, before)->Ok_0;
            let added = now.files.skip(before.files.len() as int);
            &&& now.files.take(before.files.len() as int) == before.files
            &&& added.contains(PlannedFileV { path, locale, after: None }) <==> origin.contains(
                path,
            ) && !is_written(dests, path)
            &&& 0 <= i < dests.len() ==> added.contains(
                PlannedFileV {
                    path: dests[i].path@,
                    locale,
                    after: Some(file_text(keep_order, locale, tree, texts(dests[i].keys@))),
                },
            )
        }),
{
    let n = dests.len() as int;
    let m = origin.len() as int;
    let k = before.files.len() as int;
    let mid = with_destinations(keep_order, locale, tree, dests, n, before)->Ok_0;
    let now = with_locale(keep_order, locale, tree, dests, origin, before)->Ok_0;
    destinations_are_planned(keep_order, locale, tree, dests, n, before);
    deletions_are_planned(locale, tree, dests, origin, m, mid, path);
    assert(origin.take(m) =~= origin);
    assert(now.files.take(k) =~= before.files);
    let added = now.files.skip(k);
    let gone = PlannedFileV { path, locale, after: None };
    let tail = now.files.skip(mid.files.len() as int);
    assert forall|j: int| 0 <= j < n implies (#[trigger] added[j]).after is Some by {
        assert(added[j] == mid.files[k + j]);
        let d = dests[j];
        assert(mid.files[before.files.len() + j].path == d.path@);
    }
    if tail.contains(gone) {
        let j = tail.index_of(gone);
        assert(added[n + j] == gone);
    }
    if added.contains(gone) {
        let j = added.index_of(gone);
        if j < n {
            assert(added[j].after is Some);
        }
        assert(tail[j - n] == gone);
    }
    if 0 <= i < n {
        let d = dests[i];
        assert(mid.files[before.files.len() + i].path == d.path@);
        assert(added[i] == mid.files[k + i]);
    }
}

/// The other locales of a file are all those that it holds but the own one.
pub proof fn the_other_locales_of_a_file(
    found: Seq<Seq<char>>,
    locale: Seq<char>,
    n: int,
    other: Seq<char>,
)
    requires
        0 <= n <= found.len(),
    ensures
        others_upto(found, locale, n).contains(other) <==> found.take(n).contains(other) && other
            != locale,
    decreases n,
{
    if n > 0 {
        the_other_locales_of_a_file(found, locale, n - 1, other);
        crate::laws::values::one_more_of_a_list(found, n, other);
        let before = others_upto(found, locale, n - 1);
        let now = others_upto(found, locale, n);
        if now.len() > before.len() {
            assert(now[before.len() as int] == found[n - 1]);
            if before.contains(other) {
                assert(now[before.index_of(other)] == other);
            }
            if now.contains(other) && other != found[n - 1] {
                assert(before[now.index_of(other)] == other);
            }
        }
    }
}

/// The keys of a file are sorted, unless their order is to be kept; they stand
/// in the order in which they came then.
pub proof fn a_file_is_sorted_unless_its_order_is_kept(
    locale: Seq<char>,
    tree: LocaleTree,
    keys: Seq<Seq<char>>,
)
    ensures
        file_text(true, locale, tree, keys) == emitted(
            locale,
            built_upto(tree, keys, keys.len() as int),
        ),
        file_text(false, locale, tree, keys) == emitted(
            locale,
            sorted_level(built_upto(tree, keys, keys.len() as int)),
        ),
{
}

} // verus!
