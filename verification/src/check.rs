//! The result of one check, under the name that it is reported by.
//!
//! One report type serves two checks and another serves two commands, so the
//! name belongs to the check and not to the report.
use crate::report::eq_base::{value_cells, EqBaseReport};
use crate::report::interpolations::{detail_cells, InterpolationReport};
use crate::report::missing::{missing_cells, MissingReport};
use crate::report::normalize::{changes_model, path_lines, FileChangeV, NormalizeReport};
use crate::report::unused::{opaque_note, UnusedReport};
use crate::report::{rows_model, table, Outcome};
use crate::scan::occurrences_model;
use crate::text::decimal;
use vstd::prelude::*;

verus! {

/// The result of one check.
pub enum Check {
    Missing(MissingReport),
    Unused(UnusedReport),
    EqBase(EqBaseReport),
    ConsistentInterpolations(InterpolationReport),
    ReservedInterpolations(InterpolationReport),
    Normalized(NormalizeReport),
}

/// What `check-normalized` prints of changes.
pub open spec fn normalized_text(changes: Seq<FileChangeV>) -> Seq<char> {
    if changes.len() == 0 {
        "All data is normalized\n"@
    } else {
        "The following data requires normalization ("@ + decimal(changes.len()) + " found)\n"@
            + path_lines(changes, changes.len() as int)
            + "Run `i18n-tasks-rs normalize --write` to fix\n"@
    }
}

impl Check {
    /// The name of the check.
    pub open spec fn title(&self) -> Seq<char> {
        match self {
            Check::Missing(_) => "missing"@,
            Check::Unused(_) => "unused"@,
            Check::EqBase(_) => "eq_base"@,
            Check::ConsistentInterpolations(_) => "check_consistent_interpolations"@,
            Check::ReservedInterpolations(_) => "check_reserved_interpolations"@,
            Check::Normalized(_) => "check_normalized"@,
        }
    }

    /// How many rows or changes the check reports.
    pub open spec fn count(&self) -> int {
        match self {
            Check::Missing(r) => r.rows.len() as int,
            Check::Unused(r) => r.rows.len() as int,
            Check::EqBase(r) => r.rows.len() as int,
            Check::ConsistentInterpolations(r) => r.rows.len() as int,
            Check::ReservedInterpolations(r) => r.rows.len() as int,
            Check::Normalized(r) => r.changes.len() as int,
        }
    }

    /// The report as text.
    pub open spec fn text(&self) -> Seq<char> {
        match self {
            Check::Missing(r) => table(
                "Missing keys"@,
                seq!["Locale"@, "Key"@, "Type"@, "Base value"@],
                missing_cells(rows_model(r.rows@)),
            ),
            Check::Unused(r) => table(
                "Unused keys"@,
                seq!["Locale"@, "Key"@, "Value"@],
                value_cells(rows_model(r.rows@)),
            ) + opaque_note(occurrences_model(r.opaque@)),
            Check::EqBase(r) => table(
                "Same value as "@ + r.base_locale@,
                seq!["Locale"@, "Key"@, "Value"@],
                value_cells(rows_model(r.rows@)),
            ),
            Check::ConsistentInterpolations(r) => table(
                r.title@,
                seq!["Locale"@, "Key"@, "Detail"@],
                detail_cells(rows_model(r.rows@)),
            ),
            Check::ReservedInterpolations(r) => table(
                r.title@,
                seq!["Locale"@, "Key"@, "Detail"@],
                detail_cells(rows_model(r.rows@)),
            ),
            Check::Normalized(r) => normalized_text(changes_model(r.changes@)),
        }
    }

    /// The name that reports give the check.
    pub fn name(&self) -> (name: &'static str)
        ensures
            name@ == self.title(),
    {
        match self {
            Check::Missing(_) => "missing",
            Check::Unused(_) => "unused",
            Check::EqBase(_) => "eq_base",
            Check::ConsistentInterpolations(_) => "check_consistent_interpolations",
            Check::ReservedInterpolations(_) => "check_reserved_interpolations",
            Check::Normalized(_) => "check_normalized",
        }
    }

    /// `Found` where the check reports anything.
    pub fn outcome(&self) -> (o: Outcome)
        ensures
            o == if self.count() > 0 {
                Outcome::Found
            } else {
                Outcome::Clean
            },
    {
        match self {
            Check::Missing(r) => r.outcome(),
            Check::Unused(r) => r.outcome(),
            Check::EqBase(r) => r.outcome(),
            Check::ConsistentInterpolations(r) => r.outcome(),
            Check::ReservedInterpolations(r) => r.outcome(),
            Check::Normalized(r) => r.outcome(),
        }
    }

    /// The report as text.
    pub fn to_text(&self) -> (out: String)
        ensures
            out@ == self.text(),
    {
        match self {
            Check::Missing(r) => r.to_text(),
            Check::Unused(r) => r.to_text(),
            Check::EqBase(r) => r.to_text(),
            Check::ConsistentInterpolations(r) => r.to_text(),
            Check::ReservedInterpolations(r) => r.to_text(),
            Check::Normalized(r) => r.to_check_text(),
        }
    }
}

/// What `remove-unused` reports: a plan, and whether it was written.
pub struct RemoveUnusedJson<'a> {
    pub unused: Option<&'a UnusedReport>,
    pub plan: Option<&'a NormalizeReport>,
    pub written: bool,
}

impl<'a> RemoveUnusedJson<'a> {
    /// Nothing was unused, so there is no plan.
    pub fn nothing_to_remove() -> (r: RemoveUnusedJson<'a>)
        ensures
            r.unused is None,
            r.plan is None,
            !r.written,
    {
        RemoveUnusedJson { unused: None, plan: None, written: false }
    }

    /// A plan that has not been written.
    pub fn planned(unused: &'a UnusedReport, plan: &'a NormalizeReport) -> (r: RemoveUnusedJson<'a>)
        ensures
            r.unused == Some(unused),
            r.plan == Some(plan),
            !r.written,
    {
        RemoveUnusedJson { unused: Some(unused), plan: Some(plan), written: false }
    }

    /// The same report after the plan was written.
    #[must_use]
    pub fn written(self) -> (r: RemoveUnusedJson<'a>)
        ensures
            r.unused == self.unused,
            r.plan == self.plan,
            r.written,
    {
        RemoveUnusedJson { unused: self.unused, plan: self.plan, written: true }
    }

    /// How many files the plan routes; none where there is no plan.
    pub fn files_routed(&self) -> (n: usize)
        ensures
            n == match self.plan {
                Some(p) => p.files_routed,
                None => 0,
            },
    {
        match self.plan {
            Some(p) => p.files_routed,
            None => 0,
        }
    }
}

/// Some check found something.
pub open spec fn some_found(checks: Seq<Check>) -> bool {
    exists|i: int| 0 <= i < checks.len() && (#[trigger] checks[i]).count() > 0
}

/// Whether any check found something: where a run ends with the code for a
/// finding.
pub fn any_found(checks: &Vec<Check>) -> (b: bool)
    ensures
        b == some_found(checks@),
{
    let mut i: usize = 0;
    while i < checks.len()
        invariant
            i <= checks.len(),
            forall|j: int| 0 <= j < i ==> (#[trigger] checks@[j]).count() <= 0,
        decreases checks.len() - i,
    {
        if checks[i].outcome() == Outcome::Found {
            return true;
        }
        i = i + 1;
    }
    false
}

/// The field `passed` of the report of all checks: no check found anything.
pub fn all_passed(checks: &Vec<Check>) -> (b: bool)
    ensures
        b == !some_found(checks@),
{
    !any_found(checks)
}

// -------------------------------------------------------------------------- laws

/// Every kind of check has a name of its own: two checks with one name are of
/// one kind.
pub proof fn a_name_tells_the_kind_of_check(a: &Check, b: &Check)
    requires
        a.title() == b.title(),
    ensures
        a is Missing == b is Missing,
        a is Unused == b is Unused,
        a is EqBase == b is EqBase,
        a is ConsistentInterpolations == b is ConsistentInterpolations,
        a is ReservedInterpolations == b is ReservedInterpolations,
        a is Normalized == b is Normalized,
{
    reveal_strlit("missing");
    reveal_strlit("unused");
    reveal_strlit("eq_base");
    reveal_strlit("check_consistent_interpolations");
    reveal_strlit("check_reserved_interpolations");
    reveal_strlit("check_normalized");
    assert("missing"@.len() == 7 && "unused"@.len() == 6 && "eq_base"@.len() == 7);
    assert("missing"@[0] != "eq_base"@[0]);
    assert("check_consistent_interpolations"@.len() == 31);
    assert("check_reserved_interpolations"@.len() == 29);
    assert("check_normalized"@.len() == 16);
}

} // verus!
