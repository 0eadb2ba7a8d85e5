//! What the commands decide: what they report, whether they may write, and how
//! they exit. Reading and writing files is up to the caller.
use crate::check::Check;
use crate::clean_config::CleanConfigReport;
use crate::config::{text_in, Config, ConfigV, DataConfig};
use crate::data::route::{routable, routing};
use crate::data::store::Store;
use crate::paths::{is_same_path, same_path};
use crate::pattern::Pattern;
use crate::report::interpolations::{self, inconsistent_rows, reserved_rows};
use crate::report::missing::{self, missing_rows, MissingType};
use crate::report::normalize::{
    is_plan, plan_filtered, FileChange, FileChangeV, NormalizeReport, PlannedFile,
};
use crate::report::unused::{
    self, exactly_the_keys_without_a_use_are_unused, holds, selected_rows, shown_above, unused_in,
    unused_rows, use_in, UnusedReport,
};
use crate::report::{rows_model, Outcome};
use crate::scan::occurrences_model;
use crate::text::{concat, decimal, decimal_text, push_text, texts};
use crate::used::UsedKeys;
use vstd::prelude::*;

verus! {

// ------------------------------------------------------------------- exit status

/// What a command returns: it passed, or it found something.
#[derive(Clone, Copy, Debug, PartialEq, Eq, Structural)]
pub enum ExitStatus {
    Passed,
    Found,
}

/// The exit code of a run that failed.
pub const EXIT_FAILURE: u8 = 2;

impl ExitStatus {
    /// For a command that decides on something other than an [`Outcome`].
    pub fn found(found: bool) -> (s: ExitStatus)
        ensures
            s == if found {
                ExitStatus::Found
            } else {
                ExitStatus::Passed
            },
    {
        if found {
            ExitStatus::Found
        } else {
            ExitStatus::Passed
        }
    }

    /// The status that the outcome of a check gives.
    pub fn of_outcome(outcome: Outcome) -> (s: ExitStatus)
        ensures
            s == if outcome == Outcome::Found {
                ExitStatus::Found
            } else {
                ExitStatus::Passed
            },
    {
        ExitStatus::found(outcome == Outcome::Found)
    }

    /// The exit code: 0 for a pass, 1 for a finding.
    pub fn code(self) -> (n: u8)
        ensures
            n == match self {
                ExitStatus::Passed => 0u8,
                ExitStatus::Found => 1u8,
            },
    {
        match self {
            ExitStatus::Passed => 0,
            ExitStatus::Found => 1,
        }
    }
}

// ------------------------------------------------------------------------- flags

/// Those of the first `n` texts that are not empty.
pub open spec fn filled(v: Seq<Seq<char>>, n: int) -> Seq<Seq<char>>
    decreases n,
{
    if n <= 0 {
        Seq::empty()
    } else if v[n - 1].len() == 0 {
        filled(v, n - 1)
    } else {
        filled(v, n - 1).push(v[n - 1])
    }
}

fn push_filled(out: &mut Vec<String>, v: &Vec<String>)
    ensures
        texts(final(out)@) == texts(old(out)@) + filled(texts(v@), v.len() as int),
{
    let ghost start = texts(out@);
    let ghost model = texts(v@);
    let mut i: usize = 0;
    assert(texts(out@) =~= start + filled(model, 0));
    while i < v.len()
        invariant
            i <= v.len(),
            model == texts(v@),
            texts(out@) == start + filled(model, i as int),
        decreases v.len() - i,
    {
        assert(model[i as int] == v@[i as int]@);
        if !v[i].as_str().is_empty() {
            push_text(out, v[i].clone());
        }
        i = i + 1;
        assert(texts(out@) =~= start + filled(model, i as int));
    }
}

/// The locales asked for: those of the flag, and behind them those that follow
/// the command. An empty one is left out.
pub fn requested_locales(flag: &Vec<String>, positional: &Vec<String>) -> (out: Vec<String>)
    ensures
        texts(out@) == filled(texts(flag@), flag.len() as int) + filled(
            texts(positional@),
            positional.len() as int,
        ),
{
    let mut out: Vec<String> = Vec::new();
    assert(texts(out@) =~= Seq::empty());
    push_filled(&mut out, flag);
    assert(texts(out@) =~= filled(texts(flag@), flag.len() as int));
    push_filled(&mut out, positional);
    out
}

/// `--write` and `--dry-run` cannot be given together.
pub fn check_write_flags(write: bool, dry_run: bool) -> (r: Result<(), String>)
    ensures
        match r {
            Ok(_) => !(write && dry_run),
            Err(e) => write && dry_run && e@
                == "`--write` and `--dry-run` contradict each other"@,
        },
{
    if write && dry_run {
        return Err("`--write` and `--dry-run` contradict each other".to_owned());
    }
    Ok(())
}

/// A config file that exists is replaced only when that is asked for.
pub fn check_overwrite(to: &str, present: bool, force: bool) -> (r: Result<(), String>)
    ensures
        match r {
            Ok(_) => !present || force,
            Err(e) => present && !force && e@ == to@
                + " already exists. Pass `--force` to overwrite it."@,
        },
{
    if present && !force {
        return Err(concat(to, " already exists. Pass `--force` to overwrite it."));
    }
    Ok(())
}

/// A config cannot be migrated onto itself.
pub fn check_migration_paths(from: &str, to: &str) -> (r: Result<(), String>)
    ensures
        match r {
            Ok(_) => !same_path(from@, to@),
            Err(e) => same_path(from@, to@) && e@ == "`--from` and `--to` are the same file"@,
        },
{
    if is_same_path(from, to) {
        return Err("`--from` and `--to` are the same file".to_owned());
    }
    Ok(())
}

/// The message where there is no config to migrate.
pub fn no_gem_config(root: &str) -> (e: String)
    ensures
        e@
            == "no gem config found. Looked for config/i18n-tasks.yml and config/i18n-tasks.yml.erb under "@
            + root@ + ". Name one with `--from`."@,
{
    let mut e = concat(
        "no gem config found. Looked for config/i18n-tasks.yml and config/i18n-tasks.yml.erb under ",
        root,
    );
    e.append(". Name one with `--from`.");
    e
}

// ----------------------------------------------------------------------- writing

/// The printed paths of the first `n` changes, indented.
pub open spec fn indented_paths(v: Seq<FileChangeV>, n: int) -> Seq<char>
    decreases n,
{
    if n <= 0 {
        Seq::empty()
    } else {
        indented_paths(v, n - 1) + ("  "@ + v[n - 1].display + "\n"@)
    }
}

/// What is said of the files that a plan empties; nothing where there are none.
pub fn deletions_text(deletions: &Vec<&FileChange>) -> (out: String)
    ensures
        ({
            let v = crate::report::normalize::borrowed_changes(deletions@);
            out@ == if v.len() == 0 {
                Seq::empty()
            } else {
                decimal(v.len()) + " file(s) end up with no keys:\n"@ + indented_paths(
                    v,
                    v.len() as int,
                )
            }
        }),
{
    let ghost v = crate::report::normalize::borrowed_changes(deletions@);
    assert(v.len() == deletions.len());
    if deletions.len() == 0 {
        return String::new();
    }
    let mut out = decimal_text(deletions.len() as u64);
    out.append(" file(s) end up with no keys:\n");
    let ghost head = out@;
    let mut i: usize = 0;
    assert(out@ =~= head + indented_paths(v, 0));
    while i < deletions.len()
        invariant
            i <= deletions.len(),
            v == crate::report::normalize::borrowed_changes(deletions@),
            out@ == head + indented_paths(v, i as int),
        decreases deletions.len() - i,
    {
        assert(v[i as int] == deletions@[i as int]@);
        out.append("  ");
        out.append(&deletions[i].display);
        out.append("\n");
        i = i + 1;
        assert(out@ =~= head + indented_paths(v, i as int));
    }
    out
}

/// What a command that writes does once its plan is printed.
pub enum WriteStep {
    /// The plan was all that was asked for.
    PlanOnly,
    /// The run is refused, with the reason.
    Refuse(String),
    /// The plan is written.
    Apply,
}

/// A refusal to delete files.
pub open spec fn deletion_refusal() -> Seq<char> {
    "refusing to delete the files listed above. Pass `--allow-delete` to allow it."@
}

/// A refusal to remove keys while the keys of calls are unknown.
pub open spec fn opaque_refusal(calls: int) -> Seq<char> {
    "refusing to remove keys while "@ + decimal(calls as nat)
        + " translation call(s) have an unknown key. Add `# i18n-tasks-use` or `ignore_unused` rules, or pass `--allow-opaque` after you verify the calls."@
}

/// What `normalize` does once its plan is printed. Nothing is written without
/// `--write`, and no file is deleted without `--allow-delete`.
pub fn normalize_step(write: bool, allow_delete: bool, deletions: usize) -> (s: WriteStep)
    ensures
        match s {
            WriteStep::PlanOnly => !write,
            WriteStep::Refuse(e) => write && deletions > 0 && !allow_delete && e@
                == deletion_refusal(),
            WriteStep::Apply => write && (deletions == 0 || allow_delete),
        },
{
    if !write {
        WriteStep::PlanOnly
    } else if deletions > 0 && !allow_delete {
        WriteStep::Refuse(
            "refusing to delete the files listed above. Pass `--allow-delete` to allow it.".to_owned(),
        )
    } else {
        WriteStep::Apply
    }
}

/// The flags of `remove-unused` that decide whether it writes.
pub struct RemovalFlags {
    pub write: bool,
    pub allow_delete: bool,
    pub allow_opaque: bool,
}

/// What `remove-unused` does once its plan is printed. Nothing is written
/// without `--write`, while the keys of calls are unknown without
/// `--allow-opaque`, and no file is deleted without `--allow-delete`.
pub fn removal_step(flags: &RemovalFlags, opaque: usize, deletions: usize) -> (s: WriteStep)
    ensures
        match s {
            WriteStep::PlanOnly => !flags.write,
            WriteStep::Refuse(e) => flags.write && if opaque > 0 && !flags.allow_opaque {
                e@ == opaque_refusal(opaque as int)
            } else {
                deletions > 0 && !flags.allow_delete && e@ == deletion_refusal()
            },
            WriteStep::Apply => flags.write && (opaque == 0 || flags.allow_opaque) && (deletions
                == 0 || flags.allow_delete),
        },
{
    if !flags.write {
        return WriteStep::PlanOnly;
    }
    if opaque > 0 && !flags.allow_opaque {
        let mut e = concat("refusing to remove keys while ", &decimal_text(opaque as u64));
        e.append(
            " translation call(s) have an unknown key. Add `# i18n-tasks-use` or `ignore_unused` rules, or pass `--allow-opaque` after you verify the calls.",
        );
        return WriteStep::Refuse(e);
    }
    normalize_step(flags.write, flags.allow_delete, deletions)
}

// ----------------------------------------------------------------- remove-unused

/// The unused keys of a run, narrowed to a pattern where one is given.
pub open spec fn is_unused_report(
    u: UnusedReport,
    cfg: ConfigV,
    store: &Store,
    used: &UsedKeys,
    locales: Seq<Seq<char>>,
    pattern: Option<Seq<char>>,
) -> bool {
    let all = unused_rows(cfg, store, used, locales, locales.len() as int);
    &&& rows_model(u.rows@) == match pattern {
        Some(p) => selected_rows(p, all, all.len() as int),
        None => all,
    }
    &&& occurrences_model(u.opaque@) == occurrences_model(used.opaque@)
    &&& forall|l: Seq<char>, k: Seq<char>| #[trigger]
        holds(u.removable_keys@, l, k) <==> locales.contains(l) && store.trees@.contains_key(l)
            && unused_in(cfg, store, used, l).contains(k) && (pattern is Some ==> shown_above(
            rows_model(u.rows@),
            l,
            k,
        ))
}

/// The configuration with the order of keys kept, where that is asked for.
pub open spec fn with_order(cfg: Config, keep_order: bool) -> Config {
    Config {
        data: DataConfig { keep_order: cfg.data.keep_order || keep_order, ..cfg.data },
        ..cfg
    }
}

/// The unused keys that can be removed, and the files without them.
pub struct Removal {
    pub unused: UnusedReport,
    pub planned: Vec<PlannedFile>,
}

/// The keys that `remove-unused` goes by: the unused keys of the locales,
/// narrowed to a pattern where one is given.
pub fn unused_for_removal(
    cfg: &Config,
    store: &Store,
    used: &UsedKeys,
    locales: &Vec<String>,
    pattern: Option<&str>,
) -> (u: UnusedReport)
    requires
        store.wf(),
    ensures
        is_unused_report(u, cfg@, store, used, texts(locales@), text_in(pattern)),
{
    assert(texts(locales@).len() == locales.len());
    let mut report = unused::report(cfg, store, used, locales);
    let ghost all = rows_model(report.rows@);
    assert(all.len() == report.rows.len());
    if let Some(source) = pattern {
        report.select_pattern(&Pattern::compile(source));
    }
    report
}

/// Some key can be removed.
pub open spec fn removes_some(u: UnusedReport) -> bool {
    exists|l: Seq<char>, k: Seq<char>| #[trigger] holds(u.removable_keys@, l, k)
}

/// Works out what `remove-unused` writes: the files of the locales without the
/// unused keys. `None` where there is nothing to remove.
pub fn plan_removal(
    cfg: Config,
    store: &Store,
    locales: &Vec<String>,
    unused: UnusedReport,
    keep_order: bool,
) -> (r: Result<Option<Removal>, String>)
    requires
        store.wf(),
        removes_some(unused) ==> forall|i: int|
            0 <= i < locales.len() ==> routable(&cfg, store, #[trigger] texts(locales@)[i], false),
    ensures
        ({
            let kept = with_order(cfg, keep_order);
            let keys = unused.removable_keys@;
            match r {
                Ok(None) => !removes_some(unused),
                Ok(Some(removal)) => removes_some(unused) && removal.unused == unused && is_plan(
                    Ok(removal.planned),
                    &kept,
                    store,
                    texts(locales@),
                    false,
                    keys,
                ),
                Err(e) => removes_some(unused) && is_plan(
                    Err(e),
                    &kept,
                    store,
                    texts(locales@),
                    false,
                    keys,
                ),
            }
        }),
{
    let ghost names = texts(locales@);
    assert(names.len() == locales.len());
    if !unused.has_removable() {
        return Ok(None);
    }
    let ghost given = cfg;
    let mut cfg = cfg;
    if keep_order {
        cfg.data.keep_order = true;
    }
    proof {
        assert(cfg == with_order(given, keep_order));
        assert forall|i: int| 0 <= i < locales.len() implies routable(
            &cfg,
            store,
            #[trigger] names[i],
            false,
        ) by {
            assert(routing(&cfg, store, names[i], false) == routing(&given, store, names[i], false));
            assert(routable(&given, store, names[i], false));
        }
    }
    match plan_filtered(&cfg, store, locales, false, &unused.removable_keys) {
        Ok(planned) => Ok(Some(Removal { unused, planned })),
        Err(e) => Err(e),
    }
}

// ------------------------------------------------------------------ clean-config

/// What `clean-config` does once its plan is printed.
pub struct CleanStep {
    /// The cleaned file is written.
    pub write: bool,
    /// The reader is told that nothing was written.
    pub hint: bool,
    pub status: ExitStatus,
}

/// What `clean-config` does once its plan is printed. A rule that only a human
/// can take out leaves the config unclean, so the run still reports a finding.
pub fn clean_step(report: &CleanConfigReport, write: bool, json: bool) -> (s: CleanStep)
    ensures
        ({
            let edits = report.cleaned@ != report.original@;
            let manual = exists|i: int|
                0 <= i < report.stale_rules.len() && (#[trigger] report.stale_rules@[i]).manual;
            if report.stale_rules.len() == 0 {
                !s.write && !s.hint && s.status == ExitStatus::Passed
            } else if write {
                s.write == edits && !s.hint && s.status == if manual {
                    ExitStatus::Found
                } else {
                    ExitStatus::Passed
                }
            } else {
                !s.write && s.hint == (!json && edits) && s.status == ExitStatus::Found
            }
        }),
{
    if report.is_clean() {
        return CleanStep { write: false, hint: false, status: ExitStatus::Passed };
    }
    if write {
        return CleanStep {
            write: report.has_edit(),
            hint: false,
            status: ExitStatus::found(report.has_manual()),
        };
    }
    CleanStep { write: false, hint: !json && report.has_edit(), status: ExitStatus::Found }
}

// ------------------------------------------------------------------------ health

/// A run without keys is an error: it must not pass for a clean one.
pub fn check_key_count(key_count: usize) -> (r: Result<(), String>)
    ensures
        match r {
            Ok(_) => key_count > 0,
            Err(e) => key_count == 0 && e@
                == "no keys detected. Check `data.read` and the working directory."@,
        },
{
    if key_count == 0 {
        return Err(
            "no keys detected. Check `data.read` and the working directory.".to_owned(),
        );
    }
    Ok(())
}

/// The checks that `health` runs, in the order in which it reports them. Every
/// one runs, whatever the others find.
pub fn health_checks(
    cfg: &Config,
    store: &Store,
    used: &UsedKeys,
    locales: &Vec<String>,
    normalized: NormalizeReport,
) -> (checks: Vec<Check>)
    requires
        store.wf(),
        used.wf(),
    ensures
        checks.len() == 5,
        checks@[0] matches Check::Missing(m) && rows_model(m.rows@) == missing_rows(
            cfg@,
            store,
            used,
            texts(locales@),
            seq![MissingType::Used, MissingType::Diff, MissingType::Plural],
            3,
        ),
        checks@[1] matches Check::Unused(u) && is_unused_report(
            u,
            cfg@,
            store,
            used,
            texts(locales@),
            None,
        ),
        checks@[2] matches Check::ConsistentInterpolations(i) && i.title@
            == "Inconsistent interpolations"@ && rows_model(i.rows@) == inconsistent_rows(
            store.trees@,
            store.base_locale@,
            cfg@.ignored(crate::config::IgnoreType::InconsistentInterpolations, None),
            texts(locales@),
        ),
        checks@[3] matches Check::ReservedInterpolations(i) && i.title@
            == "Reserved interpolations"@ && rows_model(i.rows@) == reserved_rows(store.trees@, texts(locales@), locales.len() as int),
        checks@[4] == Check::Normalized(normalized),
{
    assert(texts(locales@).len() == locales.len());
    let types = MissingType::all();
    let mut checks: Vec<Check> = Vec::new();
    checks.push(Check::Missing(missing::report(cfg, store, used, locales, &types)));
    checks.push(Check::Unused(unused::report(cfg, store, used, locales)));
    checks.push(Check::ConsistentInterpolations(interpolations::inconsistent(cfg, store, locales)));
    checks.push(Check::ReservedInterpolations(interpolations::reserved(store, locales)));
    checks.push(Check::Normalized(normalized));
    checks
}

/// The reports of the first `n` checks, each behind an empty line.
pub open spec fn check_texts(checks: Seq<Check>, n: int) -> Seq<char>
    decreases n,
{
    if n <= 0 {
        Seq::empty()
    } else {
        check_texts(checks, n - 1) + ("\n"@ + checks[n - 1].text())
    }
}

/// What `health` prints: the statistics, and behind them the report of every
/// check.
pub fn health_text(stats: &str, checks: &Vec<Check>) -> (out: String)
    ensures
        out@ == stats@ + "\n"@ + check_texts(checks@, checks.len() as int),
{
    let mut out = concat(stats, "\n");
    let ghost head = out@;
    let mut i: usize = 0;
    assert(out@ =~= head + check_texts(checks@, 0));
    while i < checks.len()
        invariant
            i <= checks.len(),
            out@ == head + check_texts(checks@, i as int),
        decreases checks.len() - i,
    {
        out.append("\n");
        out.append(&checks[i].to_text());
        i = i + 1;
        assert(out@ =~= head + check_texts(checks@, i as int));
    }
    out
}

// ------------------------------------------------------------------------ laws

/// Removing unused keys never removes a key that is in use: one that a call
/// names, that an interpolated key reaches, that a rule ignores or that is
/// external.
pub proof fn a_key_in_use_is_never_removed(
    u: UnusedReport,
    cfg: ConfigV,
    store: &Store,
    used: &UsedKeys,
    locales: Seq<Seq<char>>,
    pattern: Option<Seq<char>>,
    locale: Seq<char>,
    key: Seq<char>,
)
    requires
        store.wf(),
        is_unused_report(u, cfg, store, used, locales, pattern),
        holds(u.removable_keys@, locale, key),
    ensures
        store.trees@[locale].keys().contains(key),
        use_in(cfg, store, used, locale).unused(key),
{
    exactly_the_keys_without_a_use_are_unused(cfg, store, used, locale, key);
}

} // verus!
