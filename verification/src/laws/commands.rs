//! When a command writes, what it refuses, and what it returns.
use crate::check::{any_found, all_passed, Check};
use crate::clean_config::CleanConfigReport;
use crate::commands::{
    check_key_count, check_migration_paths, check_overwrite, check_write_flags, clean_step, filled,
    health_checks, normalize_step, removal_step, requested_locales, CleanStep, ExitStatus,
    RemovalFlags, WriteStep,
};
use crate::config::Config;
use crate::data::store::Store;
use crate::paths::same_path;
use crate::report::normalize::NormalizeReport;
use crate::stats::{forest_stats, forest_totals, ForestStats};
use crate::text::texts;
use crate::used::UsedKeys;
use vstd::prelude::*;

verus! {

// ------------------------------------------------------------------------- writing

/// `normalize` writes exactly where that is asked for and no file is deleted
/// without leave.
pub proof fn nothing_is_deleted_without_leave(
    write: bool,
    allow_delete: bool,
    deletions: usize,
    s: WriteStep,
)
    requires
        call_ensures(normalize_step, (write, allow_delete, deletions), s),
    ensures
        s is PlanOnly <==> !write,
        s is Apply <==> write && (deletions > 0 ==> allow_delete),
{
}

/// `remove-unused` writes exactly where that is asked for, every call is known
/// or the unknown ones are allowed, and no file is deleted without leave.
pub proof fn nothing_is_removed_while_calls_are_unknown(
    flags: &RemovalFlags,
    opaque: usize,
    deletions: usize,
    s: WriteStep,
)
    requires
        call_ensures(removal_step, (flags, opaque, deletions), s),
    ensures
        s is PlanOnly <==> !flags.write,
        s is Apply <==> flags.write && (opaque > 0 ==> flags.allow_opaque) && (deletions > 0
            ==> flags.allow_delete),
{
}

/// `clean-config` writes exactly where that is asked for and some rule can be
/// taken out. It passes where no rule is stale, and where it has taken out all
/// that are.
pub proof fn a_cleanup_passes_exactly_where_no_rule_is_left(
    report: &CleanConfigReport,
    write: bool,
    json: bool,
    s: CleanStep,
)
    requires
        call_ensures(clean_step, (report, write, json), s),
    ensures
        s.write <==> write && report.stale_rules.len() > 0 && report.cleaned@ != report.original@,
        s.status == ExitStatus::Passed <==> report.stale_rules.len() == 0 || (write && forall|i: int|
            0 <= i < report.stale_rules.len() ==> !(#[trigger] report.stale_rules@[i]).manual),
        s.hint <==> !write && !json && report.stale_rules.len() > 0 && report.cleaned@
            != report.original@,
{
}

/// A file that exists is replaced only with leave, no config is migrated onto
/// itself, and a run cannot both write and not write.
pub proof fn what_a_run_refuses(
    to: &str,
    present: bool,
    force: bool,
    from: &str,
    write: bool,
    dry_run: bool,
    keys: usize,
    a: Result<(), String>,
    b: Result<(), String>,
    c: Result<(), String>,
    d: Result<(), String>,
)
    requires
        call_ensures(check_overwrite, (to, present, force), a),
        call_ensures(check_migration_paths, (from, to), b),
        call_ensures(check_write_flags, (write, dry_run), c),
        call_ensures(check_key_count, (keys,), d),
    ensures
        a is Err <==> present && !force,
        b is Err <==> same_path(from@, to@),
        c is Err <==> write && dry_run,
        d is Err <==> keys == 0,
{
}

// ------------------------------------------------------------------------- results

/// A run of checks passes exactly where no check reports anything.
pub proof fn a_run_passes_exactly_where_nothing_is_found(
    checks: &Vec<Check>,
    found: bool,
    passed: bool,
    code: ExitStatus,
)
    requires
        call_ensures(any_found, (checks,), found),
        call_ensures(all_passed, (checks,), passed),
        call_ensures(ExitStatus::found, (found,), code),
    ensures
        passed == !found,
        code == ExitStatus::Passed <==> passed,
        passed <==> forall|i: int|
            0 <= i < checks.len() ==> match #[trigger] checks@[i] {
                Check::Missing(r) => r.rows.len() == 0,
                Check::Unused(r) => r.rows.len() == 0,
                Check::EqBase(r) => r.rows.len() == 0,
                Check::ConsistentInterpolations(r) => r.rows.len() == 0,
                Check::ReservedInterpolations(r) => r.rows.len() == 0,
                Check::Normalized(r) => r.changes.len() == 0,
            },
{
    if passed {
        assert forall|i: int| 0 <= i < checks.len() implies match #[trigger] checks@[i] {
            Check::Missing(r) => r.rows.len() == 0,
            Check::Unused(r) => r.rows.len() == 0,
            Check::EqBase(r) => r.rows.len() == 0,
            Check::ConsistentInterpolations(r) => r.rows.len() == 0,
            Check::ReservedInterpolations(r) => r.rows.len() == 0,
            Check::Normalized(r) => r.changes.len() == 0,
        } by {
            assert(checks@[i].count() <= 0);
        }
    } else {
        let i = choose|i: int| 0 <= i < checks@.len() && (#[trigger] checks@[i]).count() > 0;
        assert(checks@[i].count() > 0);
    }
}

/// `health` runs each of its checks once, in one order, whatever is found.
pub proof fn health_runs_every_check(
    cfg: &Config,
    store: &Store,
    used: &UsedKeys,
    locales: &Vec<String>,
    normalized: NormalizeReport,
    checks: Vec<Check>,
)
    requires
        call_ensures(health_checks, (cfg, store, used, locales, normalized), checks),
    ensures
        checks.len() == 5,
        checks@[0] is Missing,
        checks@[1] is Unused,
        checks@[2] is ConsistentInterpolations,
        checks@[3] is ReservedInterpolations,
        checks@[4] == Check::Normalized(normalized),
{
}

/// The locales asked for are all those that are named, by the flag or behind the
/// command, and none that is empty.
pub proof fn every_named_locale_is_asked_for(
    flag: &Vec<String>,
    positional: &Vec<String>,
    out: Vec<String>,
    locale: Seq<char>,
)
    requires
        call_ensures(requested_locales, (flag, positional), out),
    ensures
        texts(out@).contains(locale) <==> locale.len() > 0 && (texts(flag@).contains(locale)
            || texts(positional@).contains(locale)),
{
    let a = texts(flag@);
    let b = texts(positional@);
    let fa = filled(a, flag.len() as int);
    let fb = filled(b, positional.len() as int);
    filled_are_named(a, a.len() as int, locale);
    filled_are_named(b, b.len() as int, locale);
    assert(a.take(a.len() as int) =~= a);
    assert(b.take(b.len() as int) =~= b);
    let all = fa + fb;
    if fa.contains(locale) {
        assert(all[fa.index_of(locale)] == locale);
    }
    if fb.contains(locale) {
        assert(all[fa.len() + fb.index_of(locale)] == locale);
    }
    if all.contains(locale) {
        let i = all.index_of(locale);
        if i < fa.len() {
            assert(fa[i] == locale);
        } else {
            assert(fb[i - fa.len()] == locale);
        }
    }
}

proof fn filled_are_named(v: Seq<Seq<char>>, n: int, s: Seq<char>)
    requires
        0 <= n <= v.len(),
    ensures
        filled(v, n).contains(s) <==> s.len() > 0 && v.take(n).contains(s),
    decreases n,
{
    if n > 0 {
        filled_are_named(v, n - 1, s);
        let before = filled(v, n - 1);
        let now = filled(v, n);
        let a = v.take(n - 1);
        let b = v.take(n);
        assert(b =~= a.push(v[n - 1]));
        assert(b[n - 1] == v[n - 1]);
        if a.contains(s) {
            assert(b[a.index_of(s)] == s);
        }
        if b.contains(s) && s != v[n - 1] {
            assert(a[b.index_of(s)] == s);
        }
        if v[n - 1].len() > 0 {
            assert(now[before.len() as int] == v[n - 1]);
            if before.contains(s) {
                assert(now[before.index_of(s)] == s);
            }
            if now.contains(s) && s != v[n - 1] {
                assert(before[now.index_of(s)] == s);
            }
        }
    }
}

/// The averages of a project: its keys by its locales, and the characters of its
/// values by its keys.
pub proof fn what_the_statistics_say(
    store: &Store,
    locales: &Vec<String>,
    mean: String,
    stats: ForestStats,
)
    requires
        call_ensures(forest_stats, (store, locales, mean), stats),
        forest_totals(store, texts(locales@), locales.len() as int).keys <= usize::MAX,
        forest_totals(store, texts(locales@), locales.len() as int).chars <= usize::MAX,
        forest_totals(store, texts(locales@), locales.len() as int).keys >= 0,
        forest_totals(store, texts(locales@), locales.len() as int).chars >= 0,
    ensures
        ({
            let t = forest_totals(store, texts(locales@), locales.len() as int);
            &&& stats.key_count == t.keys
            &&& locales.len() > 0 ==> stats.locale_count == locales.len()
                && stats.per_locale_avg * locales.len() <= t.keys < (stats.per_locale_avg + 1)
                * locales.len()
            &&& t.keys > 0 ==> stats.value_chars_avg * t.keys <= t.chars < (stats.value_chars_avg
                + 1) * t.keys
            &&& t.keys == 0 ==> stats.value_chars_avg == 0 && stats.per_locale_avg == 0
        }),
{
    let t = forest_totals(store, texts(locales@), locales.len() as int);
    let n = locales.len() as int;
    if n > 0 {
        quotient_is_a_floor(t.keys, n);
    }
    if t.keys > 0 {
        quotient_is_a_floor(t.chars, t.keys);
    } else {
        assert(0int / stats.locale_count as int == 0) by (nonlinear_arith)
            requires
                stats.locale_count > 0,
        ;
    }
}

proof fn quotient_is_a_floor(a: int, b: int)
    requires
        a >= 0,
        b > 0,
    ensures
        (a / b) * b <= a < (a / b + 1) * b,
{
    assert((a / b) * b <= a < (a / b + 1) * b) by (nonlinear_arith)
        requires
            a >= 0,
            b > 0,
    ;
}

} // verus!
