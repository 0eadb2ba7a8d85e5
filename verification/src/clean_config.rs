//! Finds ignore rules that suppress no current report row.
use crate::config::{group_names_of, names_of_group, texts_in, Config, ConfigV, IgnoreType};
use crate::data::load::clone_texts;
use crate::data::store::Store;
use crate::lineindex::numbers;
use crate::pattern::{accepts, any_accepts, PatternSet};
use crate::report::eq_base::{self, eq_base_rows};
use crate::report::interpolations::{self, inconsistent_rows};
use crate::report::missing::{self, missing_rows, MissingType};
use crate::report::normalize::{diff_hunks, hunks_of};
use crate::report::unused::{self, unused_rows};
use crate::report::{rows_model, KeyRow, KeyRowV};
use crate::scan::byte_len;
use crate::text::{
    concat, decimal, decimal_text, is_space, joined, joined_push, lines_join_to_the_text, lines_of,
    position_is_first, position_of, same_text, split_lines, starts_with, texts, trim_start,
    trim_start_of,
};
use crate::used::UsedKeys;
use crate::yaml::{entries_model, nodes_model, Node, NodeV};
use std::collections::BTreeSet;
use vstd::prelude::*;
use vstd::utf8::*;

verus! {

broadcast use vstd::std_specs::btree::group_btree_axioms;

/// Which reports a rule applies to.
#[derive(Clone, Copy, PartialEq, Eq, Structural)]
pub enum Kind {
    Global,
    Missing,
    Unused,
    EqBase,
    Interpolations,
}

/// One ignore pattern of the config file, and where it stands.
pub struct Rule {
    pub setting: String,
    pub pattern: String,
    pub line: usize,
    pub locales: Option<Vec<String>>,
    pub kind: Kind,
    pub container_lines: Vec<usize>,
}

/// What a [`Rule`] holds.
pub struct RuleV {
    pub setting: Seq<char>,
    pub pattern: Seq<char>,
    pub line: int,
    pub locales: Option<Seq<Seq<char>>>,
    pub kind: Kind,
    pub container_lines: Seq<int>,
}

impl View for Rule {
    type V = RuleV;

    open spec fn view(&self) -> RuleV {
        RuleV {
            setting: self.setting@,
            pattern: self.pattern@,
            line: self.line as int,
            locales: texts_in(self.locales),
            kind: self.kind,
            container_lines: numbers(self.container_lines@),
        }
    }
}

/// What a list of rules holds.
pub open spec fn rules_view(v: Seq<Rule>) -> Seq<RuleV> {
    Seq::new(v.len(), |i: int| v[i]@)
}

/// A rule that suppresses nothing.
#[derive(Debug)]
pub struct StaleRule {
    pub setting: String,
    pub pattern: String,
    pub line: usize,
    /// Set where the rule shares its line with a rule that stays, so that only
    /// a human can take it out.
    pub manual: bool,
}

/// What a [`StaleRule`] holds.
pub struct StaleRuleV {
    pub setting: Seq<char>,
    pub pattern: Seq<char>,
    pub line: int,
    pub manual: bool,
}

impl View for StaleRule {
    type V = StaleRuleV;

    open spec fn view(&self) -> StaleRuleV {
        StaleRuleV {
            setting: self.setting@,
            pattern: self.pattern@,
            line: self.line as int,
            manual: self.manual,
        }
    }
}

/// What a list of stale rules holds.
pub open spec fn stale_model(v: Seq<StaleRule>) -> Seq<StaleRuleV> {
    Seq::new(v.len(), |i: int| v[i]@)
}

/// The stale rules of a config file, and the file without them.
#[derive(Debug)]
pub struct CleanConfigReport {
    pub stale_rules: Vec<StaleRule>,
    pub cleaned: String,
    pub original: String,
    pub display_path: String,
}

// ---------------------------------------------------------------- reading rules

/// The rules that a node holds, in the order in which they are written.
pub open spec fn rules_under(
    node: NodeV,
    setting: Seq<char>,
    kind: Kind,
    locales: Option<Seq<Seq<char>>>,
    containers: Seq<int>,
) -> Seq<RuleV>
    decreases node, 0nat,
{
    match node {
        NodeV::Scalar { value, line, .. } => seq![
            RuleV {
                setting,
                pattern: value,
                line,
                locales,
                kind,
                container_lines: containers,
            },
        ],
        NodeV::List { items, .. } => item_rules(
            items,
            items.len(),
            setting,
            kind,
            locales,
            containers,
        ),
        NodeV::Mapping { entries, .. } => group_rules(
            entries,
            entries.len(),
            setting,
            kind,
            containers,
        ),
    }
}

/// The rules of the first `n` items.
pub open spec fn item_rules(
    items: Seq<NodeV>,
    n: nat,
    setting: Seq<char>,
    kind: Kind,
    locales: Option<Seq<Seq<char>>>,
    containers: Seq<int>,
) -> Seq<RuleV>
    decreases items, n,
{
    if n == 0 || n > items.len() {
        Seq::empty()
    } else {
        item_rules(items, (n - 1) as nat, setting, kind, locales, containers) + rules_under(
            items[n - 1],
            setting,
            kind,
            locales,
            containers,
        )
    }
}

/// The rules of the first `n` groups. A group is named by its locales.
pub open spec fn group_rules(
    entries: Seq<(NodeV, NodeV)>,
    n: nat,
    setting: Seq<char>,
    kind: Kind,
    containers: Seq<int>,
) -> Seq<RuleV>
    decreases entries, n,
{
    if n == 0 || n > entries.len() {
        Seq::empty()
    } else {
        group_rules(entries, (n - 1) as nat, setting, kind, containers) + rules_under(
            entries[n - 1].1,
            setting,
            kind,
            group_locales(entries[n - 1].0),
            containers.push(entries[n - 1].0.line()),
        )
    }
}

/// The locales that a group names; `None` where its name is not a text.
pub open spec fn group_locales(group: NodeV) -> Option<Seq<Seq<char>>> {
    match group.text() {
        Some(raw) => Some(group_names_of(raw)),
        None => None,
    }
}

/// Which reports a setting applies to.
pub open spec fn kind_of(setting: Seq<char>) -> Option<Kind> {
    if setting == "ignore"@ {
        Some(Kind::Global)
    } else if setting == "ignore_missing"@ {
        Some(Kind::Missing)
    } else if setting == "ignore_unused"@ {
        Some(Kind::Unused)
    } else if setting == "ignore_eq_base"@ {
        Some(Kind::EqBase)
    } else if setting == "ignore_inconsistent_interpolations"@ {
        Some(Kind::Interpolations)
    } else {
        None
    }
}

/// The rules of one top-level setting.
pub open spec fn setting_rules(key: NodeV, value: NodeV) -> Seq<RuleV> {
    match key.text() {
        None => Seq::empty(),
        Some(setting) => match kind_of(setting) {
            None => Seq::empty(),
            Some(kind) => rules_under(value, setting, kind, None, seq![key.line()]),
        },
    }
}

/// The rules of the first `n` top-level settings.
pub open spec fn settings_rules(entries: Seq<(NodeV, NodeV)>, n: int) -> Seq<RuleV>
    decreases n,
{
    if n <= 0 {
        Seq::empty()
    } else {
        settings_rules(entries, n - 1) + setting_rules(entries[n - 1].0, entries[n - 1].1)
    }
}

/// The rules of a config file.
pub open spec fn rules_of(root: NodeV) -> Seq<RuleV> {
    match root.entries() {
        Some(entries) => settings_rules(entries, entries.len() as int),
        None => Seq::empty(),
    }
}

fn copy_numbers(v: &Vec<usize>) -> (out: Vec<usize>)
    ensures
        out@ == v@,
{
    let mut out: Vec<usize> = Vec::new();
    let mut i: usize = 0;
    while i < v.len()
        invariant
            i <= v.len(),
            out@ == v@.take(i as int),
        decreases v.len() - i,
    {
        out.push(v[i]);
        i = i + 1;
        assert(out@ =~= v@.take(i as int));
    }
    assert(v@.take(v.len() as int) =~= v@);
    out
}

fn copy_locales(v: &Option<Vec<String>>) -> (out: Option<Vec<String>>)
    ensures
        texts_in(out) == texts_in(*v),
{
    match v {
        Some(v) => Some(clone_texts(v)),
        None => None,
    }
}

#[verifier::loop_isolation(false)]
fn collect_rules(
    out: &mut Vec<Rule>,
    setting: &str,
    kind: Kind,
    locales: Option<Vec<String>>,
    node: &Node,
    container_lines: Vec<usize>,
)
    ensures
        rules_view(final(out)@) == rules_view(old(out)@) + rules_under(
            node@,
            setting@,
            kind,
            texts_in(locales),
            numbers(container_lines@),
        ),
    decreases node,
{
    let ghost start = rules_view(out@);
    let ghost names = texts_in(locales);
    let ghost lines = numbers(container_lines@);
    match node {
        Node::Scalar { value, line, .. } => {
            let rule = Rule {
                setting: setting.to_owned(),
                pattern: value.clone(),
                line: *line,
                locales,
                kind,
                container_lines,
            };
            out.push(rule);
            assert(rules_view(out@) =~= start + seq![rule@]);
        },
        Node::List { items, .. } => {
            let ghost model = node@->items;
            let mut i: usize = 0;
            assert(start + item_rules(model, 0, setting@, kind, names, lines) =~= start);
            while i < items.len()
                invariant
                    i <= items.len(),
                    model == nodes_model(items@),
                    rules_view(out@) == start + item_rules(
                        model,
                        i as nat,
                        setting@,
                        kind,
                        names,
                        lines,
                    ),
                decreases items.len() - i,
            {
                assert(decreases_to!(*items => items@[i as int]));
                assert(model[i as int] == items@[i as int]@);
                let own = copy_locales(&locales);
                collect_rules(out, setting, kind, own, &items[i], copy_numbers(&container_lines));
                i = i + 1;
                assert(rules_view(out@) =~= start + item_rules(
                    model,
                    i as nat,
                    setting@,
                    kind,
                    names,
                    lines,
                ));
            }
        },
        Node::Mapping { entries, .. } => {
            let ghost model = node@->entries;
            let mut i: usize = 0;
            assert(start + group_rules(model, 0, setting@, kind, lines) =~= start);
            while i < entries.len()
                invariant
                    i <= entries.len(),
                    model == entries_model(entries@),
                    rules_view(out@) == start + group_rules(model, i as nat, setting@, kind, lines),
                decreases entries.len() - i,
            {
                assert(decreases_to!(*entries => entries@[i as int]));
                let entry = &entries[i];
                assert(model[i as int] == (entry.0@, entry.1@));
                let group = match entry.0.as_str() {
                    Some(raw) => Some(names_of_group(raw)),
                    None => None,
                };
                let mut containers = copy_numbers(&container_lines);
                containers.push(entry.0.line());
                assert(numbers(containers@) =~= lines.push(entry.0@.line()));
                collect_rules(out, setting, kind, group, &entry.1, containers);
                i = i + 1;
                assert(rules_view(out@) =~= start + group_rules(
                    model,
                    i as nat,
                    setting@,
                    kind,
                    lines,
                ));
            }
        },
    }
}

fn setting_kind(setting: &str) -> (r: Option<Kind>)
    ensures
        r == kind_of(setting@),
{
    if same_text(setting, "ignore") {
        Some(Kind::Global)
    } else if same_text(setting, "ignore_missing") {
        Some(Kind::Missing)
    } else if same_text(setting, "ignore_unused") {
        Some(Kind::Unused)
    } else if same_text(setting, "ignore_eq_base") {
        Some(Kind::EqBase)
    } else if same_text(setting, "ignore_inconsistent_interpolations") {
        Some(Kind::Interpolations)
    } else {
        None
    }
}

/// The rules of a parsed config file, in the order in which they are written.
pub fn rules_in(root: &Node) -> (rules: Vec<Rule>)
    ensures
        rules_view(rules@) == rules_of(root@),
{
    let mut rules: Vec<Rule> = Vec::new();
    assert(rules_view(rules@) =~= Seq::empty());
    let entries = match root.as_map() {
        Some(entries) => entries,
        None => {
            return rules;
        },
    };
    let ghost model = entries_model(entries@);
    let mut i: usize = 0;
    while i < entries.len()
        invariant
            i <= entries.len(),
            model == entries_model(entries@),
            rules_view(rules@) == settings_rules(model, i as int),
        decreases entries.len() - i,
    {
        let entry = &entries[i];
        assert(model[i as int] == (entry.0@, entry.1@));
        let ghost before = rules_view(rules@);
        if let Some(setting) = entry.0.as_str() {
            if let Some(kind) = setting_kind(setting) {
                let mut lines: Vec<usize> = Vec::new();
                lines.push(entry.0.line());
                assert(numbers(lines@) =~= seq![entry.0@.line()]);
                collect_rules(&mut rules, setting, kind, None, &entry.1, lines);
            }
        }
        i = i + 1;
        assert(rules_view(rules@) =~= settings_rules(model, i as int));
    }
    rules
}

// ----------------------------------------------------------------- stale rules

/// A group applies to the locales that it names, and `all` names every one. A
/// rule outside a group applies to every locale.
pub open spec fn applies_to(group: Option<Seq<Seq<char>>>, locale: Seq<char>) -> bool {
    match group {
        None => true,
        Some(locales) => locales.contains("all"@) || locales.contains(locale),
    }
}

fn locale_applies(group: &Option<Vec<String>>, locale: &str) -> (b: bool)
    ensures
        b == applies_to(
            texts_in(*group),
            locale@,
        ),
{
    match group {
        None => true,
        Some(locales) => {
            let mut i: usize = 0;
            while i < locales.len()
                invariant
                    i <= locales.len(),
                    texts_in(*group) == Some(texts(locales@)),
                    forall|j: int|
                        0 <= j < i ==> texts(locales@)[j] != "all"@ && texts(locales@)[j]
                            != locale@,
                decreases locales.len() - i,
            {
                if same_text(&locales[i], "all") || same_text(&locales[i], locale) {
                    assert(texts(locales@)[i as int] == locales@[i as int]@);
                    return true;
                }
                i = i + 1;
            }
            false
        },
    }
}

/// The rule suppresses one of the rows.
pub open spec fn suppresses(rule: RuleV, rows: Seq<KeyRowV>) -> bool {
    exists|i: int| 0 <= i < rows.len() && suppresses_row(rule, #[trigger] rows[i])
}

/// The rule suppresses the row.
pub open spec fn suppresses_row(rule: RuleV, row: KeyRowV) -> bool {
    applies_to(rule.locales, row.locale) && accepts(rule.pattern, row.key)
}

/// What is reported when nothing is ignored.
pub struct ReportsV {
    pub missing: Seq<KeyRowV>,
    pub unused: Seq<KeyRowV>,
    pub eq_base: Seq<KeyRowV>,
    pub interpolations: Seq<KeyRowV>,
}

/// The rule suppresses a row of a report that it applies to.
pub open spec fn in_use(rule: RuleV, reports: ReportsV) -> bool {
    match rule.kind {
        Kind::Global => suppresses(rule, reports.missing) || suppresses(rule, reports.unused)
            || suppresses(rule, reports.eq_base) || suppresses(rule, reports.interpolations),
        Kind::Missing => suppresses(rule, reports.missing),
        Kind::Unused => suppresses(rule, reports.unused),
        Kind::EqBase => suppresses(rule, reports.eq_base),
        Kind::Interpolations => suppresses(rule, reports.interpolations),
    }
}

/// The places of the rules, among the first `n`, that suppress nothing.
pub open spec fn stale_upto(rules: Seq<RuleV>, reports: ReportsV, n: int) -> Seq<int>
    decreases n,
{
    if n <= 0 {
        Seq::empty()
    } else if in_use(rules[n - 1], reports) {
        stale_upto(rules, reports, n - 1)
    } else {
        stale_upto(rules, reports, n - 1).push(n - 1)
    }
}

fn rule_suppresses(rule: &Rule, set: &PatternSet, rows: &Vec<KeyRow>) -> (b: bool)
    requires
        set@ == seq![rule@.pattern],
    ensures
        b == suppresses(rule@, rows_model(rows@)),
{
    let ghost model = rows_model(rows@);
    let mut i: usize = 0;
    while i < rows.len()
        invariant
            i <= rows.len(),
            model == rows_model(rows@),
            set@ == seq![rule@.pattern],
            forall|j: int| 0 <= j < i ==> !suppresses_row(rule@, #[trigger] model[j]),
        decreases rows.len() - i,
    {
        let row = &rows[i];
        assert(model[i as int] == row@);
        if locale_applies(&rule.locales, &row.locale) && set.is_match(&row.key) {
            assert(suppresses_row(rule@, model[i as int]));
            return true;
        }
        assert(accepts(rule@.pattern, row@.key) ==> any_accepts(set@, row@.key)) by {
            assert(set@[0] == rule@.pattern);
        }
        i = i + 1;
    }
    false
}

struct Reports {
    missing: Vec<KeyRow>,
    unused: Vec<KeyRow>,
    eq_base: Vec<KeyRow>,
    interpolations: Vec<KeyRow>,
}

impl View for Reports {
    type V = ReportsV;

    closed spec fn view(&self) -> ReportsV {
        ReportsV {
            missing: rows_model(self.missing@),
            unused: rows_model(self.unused@),
            eq_base: rows_model(self.eq_base@),
            interpolations: rows_model(self.interpolations@),
        }
    }
}

fn is_in_use(rule: &Rule, reports: &Reports) -> (b: bool)
    ensures
        b == in_use(rule@, reports@),
{
    let mut sources: Vec<String> = Vec::new();
    sources.push(rule.pattern.clone());
    let set = PatternSet::new(&sources);
    assert(set@ =~= seq![rule@.pattern]);
    match rule.kind {
        Kind::Global => rule_suppresses(rule, &set, &reports.missing) || rule_suppresses(
            rule,
            &set,
            &reports.unused,
        ) || rule_suppresses(rule, &set, &reports.eq_base) || rule_suppresses(
            rule,
            &set,
            &reports.interpolations,
        ),
        Kind::Missing => rule_suppresses(rule, &set, &reports.missing),
        Kind::Unused => rule_suppresses(rule, &set, &reports.unused),
        Kind::EqBase => rule_suppresses(rule, &set, &reports.eq_base),
        Kind::Interpolations => rule_suppresses(rule, &set, &reports.interpolations),
    }
}

fn find_stale(rules: &Vec<Rule>, reports: &Reports) -> (stale: Vec<usize>)
    ensures
        numbers(stale@) == stale_upto(rules_view(rules@), reports@, rules.len() as int),
{
    let ghost model = rules_view(rules@);
    let mut stale: Vec<usize> = Vec::new();
    let mut i: usize = 0;
    assert(numbers(stale@) =~= Seq::empty());
    while i < rules.len()
        invariant
            i <= rules.len(),
            model == rules_view(rules@),
            numbers(stale@) == stale_upto(model, reports@, i as int),
        decreases rules.len() - i,
    {
        assert(model[i as int] == rules@[i as int]@);
        if !is_in_use(&rules[i], reports) {
            let ghost before = numbers(stale@);
            stale.push(i);
            assert(numbers(stale@) =~= before.push(i as int));
        }
        i = i + 1;
    }
    stale
}

// ------------------------------------------------------------ the removal plan

/// A rule that is not stale stands on the line.
pub open spec fn keeps_line(rules: Seq<RuleV>, stale: Seq<int>, line: int) -> bool {
    exists|i: int|
        0 <= i < rules.len() && !stale.contains(i) && (#[trigger] rules[i]).line == line
}

/// The stale rule shares its line with a rule that stays.
pub open spec fn is_manual(rules: Seq<RuleV>, stale: Seq<int>, i: int) -> bool {
    0 <= i < rules.len() && keeps_line(rules, stale, rules[i].line)
}

/// The rule is taken out.
pub open spec fn is_removed(rules: Seq<RuleV>, stale: Seq<int>, i: int) -> bool {
    stale.contains(i) && !is_manual(rules, stale, i)
}

/// A rule that is not taken out lies in the container that opens on the line.
pub open spec fn keeps_container(rules: Seq<RuleV>, stale: Seq<int>, line: int) -> bool {
    exists|i: int|
        0 <= i < rules.len() && !is_removed(rules, stale, i) && (
        #[trigger] rules[i]).container_lines.contains(line)
}

/// Taking out the rule takes out the line: its own, or the one on which a
/// container opens of which every rule is taken out.
pub open spec fn takes_out(rules: Seq<RuleV>, stale: Seq<int>, i: int, line: int) -> bool {
    rules[i].line == line || rules[i].container_lines.contains(line) && !keeps_container(
        rules,
        stale,
        line,
    )
}

/// The line is taken out of the file.
pub open spec fn removes_line(rules: Seq<RuleV>, stale: Seq<int>, line: int) -> bool {
    exists|i: int|
        0 <= i < rules.len() && is_removed(rules, stale, i) && #[trigger] takes_out(
            rules,
            stale,
            i,
            line,
        )
}

fn lists_number(v: &Vec<usize>, n: usize) -> (b: bool)
    ensures
        b == numbers(v@).contains(n as int),
{
    let mut i: usize = 0;
    while i < v.len()
        invariant
            i <= v.len(),
            forall|j: int| 0 <= j < i ==> numbers(v@)[j] != n,
        decreases v.len() - i,
    {
        if v[i] == n {
            assert(numbers(v@)[i as int] == n as int);
            return true;
        }
        i = i + 1;
    }
    false
}

fn line_is_kept(rules: &Vec<Rule>, stale: &Vec<usize>, line: usize) -> (b: bool)
    ensures
        b == keeps_line(rules_view(rules@), numbers(stale@), line as int),
{
    let ghost model = rules_view(rules@);
    let ghost out = numbers(stale@);
    let mut i: usize = 0;
    while i < rules.len()
        invariant
            i <= rules.len(),
            model == rules_view(rules@),
            out == numbers(stale@),
            forall|j: int|
                0 <= j < i ==> out.contains(j) || (#[trigger] model[j]).line != line,
        decreases rules.len() - i,
    {
        assert(model[i as int] == rules@[i as int]@);
        if rules[i].line == line && !lists_number(stale, i) {
            assert(model[i as int].line == line);
            return true;
        }
        i = i + 1;
    }
    false
}

fn rule_is_removed(rules: &Vec<Rule>, stale: &Vec<usize>, i: usize) -> (b: bool)
    requires
        i < rules.len(),
    ensures
        b == is_removed(rules_view(rules@), numbers(stale@), i as int),
{
    assert(rules_view(rules@)[i as int] == rules@[i as int]@);
    lists_number(stale, i) && !line_is_kept(rules, stale, rules[i].line)
}

fn container_is_kept(rules: &Vec<Rule>, stale: &Vec<usize>, line: usize) -> (b: bool)
    ensures
        b == keeps_container(rules_view(rules@), numbers(stale@), line as int),
{
    let ghost model = rules_view(rules@);
    let ghost out = numbers(stale@);
    let mut i: usize = 0;
    while i < rules.len()
        invariant
            i <= rules.len(),
            model == rules_view(rules@),
            out == numbers(stale@),
            forall|j: int|
                0 <= j < i ==> is_removed(model, out, j) || !(
                #[trigger] model[j]).container_lines.contains(line as int),
        decreases rules.len() - i,
    {
        assert(model[i as int] == rules@[i as int]@);
        if lists_number(&rules[i].container_lines, line) && !rule_is_removed(rules, stale, i) {
            assert(model[i as int].container_lines.contains(line as int));
            return true;
        }
        i = i + 1;
    }
    false
}

/// Turns the stale rules into the lines that are taken out, and one flag per
/// entry of `stale`: whether that rule has to be taken out by hand.
///
/// A rule is known by its place, not by its line. A flow-style list holds
/// several rules on one line, so taking out the line of a stale rule would take
/// its neighbours with it. A stale rule that shares its line with a rule that
/// stays is therefore left in place.
pub fn removal_plan(rules: &Vec<Rule>, stale: &Vec<usize>) -> (r: (BTreeSet<usize>, Vec<bool>))
    ensures
        forall|line: usize| #[trigger]
            r.0@.contains(line) <==> removes_line(
                rules_view(rules@),
                numbers(stale@),
                line as int,
            ),
        r.1.len() == stale.len(),
        forall|k: int|
            0 <= k < stale.len() ==> #[trigger] r.1@[k] == is_manual(
                rules_view(rules@),
                numbers(stale@),
                stale@[k] as int,
            ),
{
    let ghost model = rules_view(rules@);
    let ghost out = numbers(stale@);
    let mut manual: Vec<bool> = Vec::new();
    let mut k: usize = 0;
    while k < stale.len()
        invariant
            k <= stale.len(),
            manual.len() == k,
            model == rules_view(rules@),
            out == numbers(stale@),
            forall|j: int|
                0 <= j < k ==> #[trigger] manual@[j] == is_manual(model, out, stale@[j] as int),
        decreases stale.len() - k,
    {
        let i = stale[k];
        let flag = if i < rules.len() {
            assert(model[i as int] == rules@[i as int]@);
            line_is_kept(rules, stale, rules[i].line)
        } else {
            false
        };
        manual.push(flag);
        k = k + 1;
    }
    (lines_to_remove(rules, stale), manual)
}

fn lines_to_remove(rules: &Vec<Rule>, stale: &Vec<usize>) -> (lines: BTreeSet<usize>)
    ensures
        forall|line: usize| #[trigger]
            lines@.contains(line) <==> removes_line(
                rules_view(rules@),
                numbers(stale@),
                line as int,
            ),
{
    let ghost model = rules_view(rules@);
    let ghost out = numbers(stale@);
    let mut lines: BTreeSet<usize> = BTreeSet::new();
    let mut i: usize = 0;
    while i < rules.len()
        invariant
            i <= rules.len(),
            model == rules_view(rules@),
            out == numbers(stale@),
            forall|line: usize| #[trigger]
                lines@.contains(line) <==> exists|j: int|
                    0 <= j < i && is_removed(model, out, j) && #[trigger] takes_out(
                        model,
                        out,
                        j,
                        line as int,
                    ),
        decreases rules.len() - i,
    {
        let ghost before = lines@;
        let rule = &rules[i];
        assert(model[i as int] == rule@);
        if rule_is_removed(rules, stale, i) {
            lines.insert(rule.line);
            let mut k: usize = 0;
            while k < rule.container_lines.len()
                invariant
                    k <= rule.container_lines.len(),
                    model == rules_view(rules@),
                    out == numbers(stale@),
                    forall|line: usize| #[trigger]
                        lines@.contains(line) <==> before.contains(line) || line == rule.line || (
                        exists|j: int|
                            0 <= j < k && #[trigger] rule.container_lines@[j] == line
                                && !keeps_container(model, out, line as int)),
                decreases rule.container_lines.len() - k,
            {
                let line = rule.container_lines[k];
                let ghost inner = lines@;
                if !container_is_kept(rules, stale, line) {
                    lines.insert(line);
                }
                assert forall|l: usize| #[trigger] lines@.contains(l) <==> before.contains(l) || l
                    == rule.line || (exists|j: int|
                    0 <= j < k + 1 && #[trigger] rule.container_lines@[j] == l && !keeps_container(
                        model,
                        out,
                        l as int,
                    )) by {
                    assert(rule.container_lines@[k as int] == line);
                    if inner.contains(l) {
                        assert(lines@.contains(l));
                    }
                    if exists|j: int|
                        0 <= j < k && #[trigger] rule.container_lines@[j] == l && !keeps_container(
                            model,
                            out,
                            l as int,
                        ) {
                        assert(inner.contains(l));
                    }
                }
                k = k + 1;
            }
            assert forall|line: usize| #[trigger] lines@.contains(line) <==> before.contains(line)
                || takes_out(model, out, i as int, line as int) by {
                if rule@.container_lines.contains(line as int) {
                    let j = rule@.container_lines.index_of(line as int);
                    assert(rule.container_lines@[j] == line);
                }
                if exists|j: int|
                    0 <= j < k && #[trigger] rule.container_lines@[j] == line && !keeps_container(
                        model,
                        out,
                        line as int,
                    ) {
                    let j = choose|j: int|
                        0 <= j < k && #[trigger] rule.container_lines@[j] == line;
                    assert(numbers(rule.container_lines@)[j] == line as int);
                }
            }
        }
        assert forall|line: usize| #[trigger] lines@.contains(line) <==> exists|j: int|
            0 <= j < i + 1 && is_removed(model, out, j) && #[trigger] takes_out(
                model,
                out,
                j,
                line as int,
            ) by {
            if before.contains(line) {
                let j = choose|j: int|
                    0 <= j < i && is_removed(model, out, j) && #[trigger] takes_out(
                        model,
                        out,
                        j,
                        line as int,
                    );
                assert(takes_out(model, out, j, line as int));
                assert(lines@.contains(line));
            }
            if exists|j: int|
                0 <= j < i + 1 && is_removed(model, out, j) && #[trigger] takes_out(
                    model,
                    out,
                    j,
                    line as int,
                ) {
                let j = choose|j: int|
                    0 <= j < i + 1 && is_removed(model, out, j) && #[trigger] takes_out(
                        model,
                        out,
                        j,
                        line as int,
                    );
                if j < i {
                    assert(before.contains(line));
                    assert(lines@.contains(line));
                }
            }
        }
        i = i + 1;
    }
    lines
}

// ----------------------------------------------------------- the cleaned file

/// How far a line is indented, in bytes.
pub open spec fn indent_of(line: Seq<char>) -> int {
    byte_len(line) - byte_len(trim_start_of(line))
}

/// A comment with the given indent.
pub open spec fn is_note(line: Seq<char>, indent: int) -> bool {
    indent_of(line) == indent && "#"@.is_prefix_of(trim_start_of(line))
}

/// Line `k` belongs to the comment block directly above line `below`: both
/// count from 1, and every line from `k` on is a comment with the indent of
/// line `below`.
pub open spec fn notes_on(lines: Seq<Seq<char>>, k: int, below: int) -> bool {
    &&& 1 <= k < below <= lines.len()
    &&& forall|j: int|
        k <= j < below ==> is_note(#[trigger] lines[j - 1], indent_of(lines[below - 1]))
}

/// Line `k` is dropped: it is one of the lines, or a note on one of them.
pub open spec fn drops(lines: Seq<Seq<char>>, stale: Set<usize>, k: int) -> bool {
    stale.contains(k as usize) || exists|below: usize| #[trigger]
        stale.contains(below) && notes_on(lines, k, below as int)
}

/// The first `n` lines without the dropped ones.
pub open spec fn kept_upto(lines: Seq<Seq<char>>, stale: Set<usize>, n: int) -> Seq<char>
    decreases n,
{
    if n <= 0 {
        Seq::empty()
    } else if drops(lines, stale, n) {
        kept_upto(lines, stale, n - 1)
    } else {
        kept_upto(lines, stale, n - 1) + lines[n - 1]
    }
}

/// A text without the lines and the notes on them.
pub open spec fn without_lines(source: Seq<char>, stale: Set<usize>) -> Seq<char> {
    kept_upto(lines_of(source), stale, lines_of(source).len() as int)
}

fn indent(line: &str) -> (r: (usize, String))
    ensures
        r.0 == indent_of(line@),
        r.1@ == trim_start_of(line@),
{
    let rest = trim_start(line);
    proof {
        trimmed_is_shorter(line@);
    }
    (line.as_bytes().len() - rest.as_str().as_bytes().len(), rest)
}

proof fn trimmed_is_shorter(s: Seq<char>)
    ensures
        byte_len(trim_start_of(s)) <= byte_len(s),
    decreases s.len(),
{
    if s.len() > 0 && is_space(s[0]) {
        trimmed_is_shorter(s.skip(1));
        assert(s.drop_first() =~= s.skip(1));
    }
}

/// Drops the given lines, and the comment block directly above each one.
///
/// A comment at the indent of a rule documents that rule, so it goes with it.
pub fn remove_lines(source: &str, stale_lines: &BTreeSet<usize>) -> (out: String)
    ensures
        out@ == without_lines(source@, stale_lines@),
{
    let lines = split_lines(source);
    let ghost model = lines_of(source@);
    let ghost stale = stale_lines@;
    let count = lines.len();
    assert(model.len() == count);
    let dropped = dropped_lines(&lines, stale_lines);
    let mut out = String::new();
    let mut i: usize = 0;
    assert(out@ =~= Seq::empty());
    while i < count
        invariant
            i <= count == lines.len() == model.len() == dropped.len(),
            model == texts(lines@),
            forall|k: int|
                1 <= k <= count ==> #[trigger] dropped@[count - k] == drops(model, stale, k),
            out@ == kept_upto(model, stale, i as int),
        decreases count - i,
    {
        assert(model[i as int] == lines@[i as int]@);
        assert(dropped@[count - (i + 1)] == drops(model, stale, i + 1));
        if !dropped[count - 1 - i] {
            out.append(&lines[i]);
        }
        i = i + 1;
    }
    out
}

/// Line `below` is dropped, and every line between line `k` and it is a note
/// on it.
spec fn opens_block(lines: Seq<Seq<char>>, stale: Set<usize>, k: int, below: usize) -> bool {
    &&& stale.contains(below)
    &&& k < below <= lines.len()
    &&& forall|j: int|
        k < j < below ==> is_note(#[trigger] lines[j - 1], indent_of(lines[below - 1]))
}

/// The indent that a note in line `k` has to have.
spec fn awaits(lines: Seq<Seq<char>>, stale: Set<usize>, k: int, indent: Option<usize>) -> bool {
    match indent {
        Some(n) => {
            &&& exists|below: usize| opens_block(lines, stale, k, below)
            &&& forall|below: usize| #[trigger]
                opens_block(lines, stale, k, below) ==> indent_of(lines[below - 1]) == n
        },
        None => forall|below: usize| !opens_block(lines, stale, k, below),
    }
}

proof fn awaited_note_is_dropped(
    lines: Seq<Seq<char>>,
    stale: Set<usize>,
    k: usize,
    indent: Option<usize>,
)
    requires
        1 <= k <= lines.len() <= usize::MAX,
        awaits(lines, stale, k as int, indent),
    ensures
        drops(lines, stale, k as int) <==> stale.contains(k) || (indent matches Some(n) && is_note(
            lines[k - 1],
            n as int,
        )),
        awaits(
            lines,
            stale,
            k - 1,
            if stale.contains(k) {
                Some(indent_of(lines[k - 1]) as usize)
            } else if indent matches Some(n) && is_note(lines[k - 1], n as int) {
                indent
            } else {
                None
            },
        ) || indent_of(lines[k - 1]) > usize::MAX || indent_of(lines[k - 1]) < 0,
{
    let line = lines[k - 1];
    let at = k as int;
    assert((at as usize) == k);
    assert forall|below: usize| #[trigger] opens_block(lines, stale, at - 1, below) <==> (below == k
        && stale.contains(k)) || (opens_block(lines, stale, at, below) && is_note(
        line,
        indent_of(lines[below - 1]),
    )) by {
        if opens_block(lines, stale, at - 1, below) && below != k {
            assert(is_note(lines[at - 1], indent_of(lines[below - 1])));
        }
    }
    if drops(lines, stale, at) && !stale.contains(k) {
        let below = choose|below: usize| #[trigger]
            stale.contains(below) && notes_on(lines, at, below as int);
        assert(is_note(lines[at - 1], indent_of(lines[below - 1])));
        assert(opens_block(lines, stale, at, below));
    }
    if indent matches Some(n) && is_note(line, n as int) {
        let below = choose|below: usize| opens_block(lines, stale, at, below);
        assert(opens_block(lines, stale, at, below));
        assert(indent_of(lines[below - 1]) == indent->Some_0);
        assert(stale.contains(below) && notes_on(lines, at, below as int));
        assert(opens_block(lines, stale, at - 1, below));
    }
    if stale.contains(k) {
        assert(opens_block(lines, stale, at - 1, k));
    }
}

/// Which lines are dropped, the last line first.
fn dropped_lines(lines: &Vec<String>, stale_lines: &BTreeSet<usize>) -> (dropped: Vec<bool>)
    ensures
        dropped.len() == lines.len(),
        forall|k: int|
            1 <= k <= lines.len() ==> #[trigger] dropped@[lines.len() - k] == drops(
                texts(lines@),
                stale_lines@,
                k,
            ),
{
    let ghost model = texts(lines@);
    let ghost stale = stale_lines@;
    let count = lines.len();
    let mut dropped: Vec<bool> = Vec::new();
    let mut awaited: Option<usize> = None;
    let mut k: usize = count;
    assert forall|below: usize| !opens_block(model, stale, count as int, below) by {}
    while k > 0
        invariant
            k <= count == lines.len() == model.len(),
            dropped.len() == count - k,
            model == texts(lines@),
            stale == stale_lines@,
            awaits(model, stale, k as int, awaited),
            forall|j: int|
                k < j <= count ==> #[trigger] dropped@[count - j] == drops(model, stale, j),
        decreases k,
    {
        assert(model[k - 1] == lines@[k - 1]@);
        let (own, rest) = indent(&lines[k - 1]);
        let is_stale = stale_lines.contains(&k);
        let noted = match awaited {
            Some(n) => own == n && starts_with(&rest, "#"),
            None => false,
        };
        proof {
            awaited_note_is_dropped(model, stale, k, awaited);
        }
        dropped.push(is_stale || noted);
        awaited =
        if is_stale {
            Some(own)
        } else if noted {
            awaited
        } else {
            None
        };
        k = k - 1;
    }
    dropped
}

// --------------------------------------------------------------------- the plan

/// What is reported of the data when nothing is ignored.
pub open spec fn bare_reports(
    cfg: ConfigV,
    store: &Store,
    used: &UsedKeys,
    locales: Seq<Seq<char>>,
) -> ReportsV {
    let bare = cfg.without_rules();
    ReportsV {
        missing: missing_rows(
            bare,
            store,
            used,
            locales,
            seq![MissingType::Used, MissingType::Diff, MissingType::Plural],
            3,
        ),
        unused: unused_rows(bare, store, used, locales, locales.len() as int),
        eq_base: eq_base_rows(
            bare,
            store.trees@,
            store.base_locale@,
            locales,
            locales.len() as int,
        ),
        interpolations: inconsistent_rows(
            store.trees@,
            store.base_locale@,
            Seq::empty(),
            locales,
        ),
    }
}

fn report_all(cfg: &Config, store: &Store, used: &UsedKeys, locales: &Vec<String>) -> (r: Reports)
    requires
        store.wf(),
        used.wf(),
    ensures
        r@ == bare_reports(cfg@, store, used, texts(locales@)),
{
    let bare = cfg.without_ignore_rules();
    assert(texts(locales@).len() == locales.len());
    let types = MissingType::all();
    assert(bare@.ignored(IgnoreType::InconsistentInterpolations, None) =~= Seq::empty());
    Reports {
        missing: missing::report(&bare, store, used, locales, &types).rows,
        unused: unused::report(&bare, store, used, locales).rows,
        eq_base: eq_base::report(&bare, store, locales).rows,
        interpolations: interpolations::inconsistent(&bare, store, locales).rows,
    }
}

/// The stale rules as they are reported.
pub open spec fn stale_rules_of(rules: Seq<RuleV>, stale: Seq<int>) -> Seq<StaleRuleV> {
    Seq::new(
        stale.len(),
        |k: int|
            StaleRuleV {
                setting: rules[stale[k]].setting,
                pattern: rules[stale[k]].pattern,
                line: rules[stale[k]].line,
                manual: is_manual(rules, stale, stale[k]),
            },
    )
}

/// The lines that are taken out.
pub open spec fn removed_lines(rules: Seq<RuleV>, stale: Seq<int>) -> Set<usize> {
    Set::new(|line: usize| removes_line(rules, stale, line as int))
}

/// What is found to be stale in the rules of a config file.
pub open spec fn is_cleanup(
    r: CleanConfigReport,
    rules: Seq<RuleV>,
    reports: ReportsV,
    source: Seq<char>,
    path: Seq<char>,
) -> bool {
    let stale = stale_upto(rules, reports, rules.len() as int);
    &&& stale_model(r.stale_rules@) == stale_rules_of(rules, stale)
    &&& r.cleaned@ == without_lines(source, removed_lines(rules, stale))
    &&& r.original@ == source
    &&& r.display_path@ == path
}

proof fn stale_places_are_rules(rules: Seq<RuleV>, reports: ReportsV, n: int)
    requires
        0 <= n <= rules.len(),
    ensures
        forall|k: int|
            0 <= k < stale_upto(rules, reports, n).len() ==> 0 <= #[trigger] stale_upto(
                rules,
                reports,
                n,
            )[k] < n,
    decreases n,
{
    if n > 0 {
        stale_places_are_rules(rules, reports, n - 1);
        let before = stale_upto(rules, reports, n - 1);
        let now = stale_upto(rules, reports, n);
        assert forall|k: int| 0 <= k < now.len() implies 0 <= #[trigger] now[k] < n by {
            if k < before.len() {
                assert(now[k] == before[k]);
            }
        }
    }
}

/// Finds the ignore rules of a config file that suppress nothing, and makes
/// the file without them. `parsed` is what the file parses to; nothing is
/// written.
pub fn plan(
    cfg: &Config,
    store: &Store,
    used: &UsedKeys,
    locales: &Vec<String>,
    source: &str,
    parsed: &Result<Option<Node>, String>,
    path: &str,
) -> (r: Result<CleanConfigReport, String>)
    requires
        store.wf(),
        used.wf(),
    ensures
        match *parsed {
            Err(e) => r matches Err(f) && f@ == e@,
            Ok(None) => r matches Err(f) && f@ == path@ + ": config is empty"@,
            Ok(Some(root)) => r matches Ok(report) && is_cleanup(
                report,
                rules_of(root@),
                bare_reports(cfg@, store, used, texts(locales@)),
                source@,
                path@,
            ),
        },
{
    let root = match parsed {
        Err(e) => {
            return Err(e.clone());
        },
        Ok(None) => {
            return Err(concat(path, ": config is empty"));
        },
        Ok(Some(root)) => root,
    };
    let rules = rules_in(root);
    let ghost model = rules_view(rules@);
    let reports = report_all(cfg, store, used, locales);
    let stale = find_stale(&rules, &reports);
    let ghost out = numbers(stale@);
    proof {
        assert(model.len() == rules.len());
        stale_places_are_rules(model, reports@, model.len() as int);
        assert forall|k: int| 0 <= k < stale.len() implies #[trigger] stale@[k] < rules.len() by {
            assert(out[k] == stale@[k] as int);
        }
    }
    let (lines, manual) = removal_plan(&rules, &stale);
    assert(lines@ =~= removed_lines(model, out));
    let cleaned = remove_lines(source, &lines);
    let mut stale_rules: Vec<StaleRule> = Vec::new();
    let mut k: usize = 0;
    while k < stale.len()
        invariant
            k <= stale.len() == manual.len(),
            stale_rules.len() == k,
            model == rules_view(rules@),
            out == numbers(stale@),
            forall|j: int| 0 <= j < stale.len() ==> #[trigger] stale@[j] < rules.len(),
            forall|j: int|
                0 <= j < stale.len() ==> #[trigger] manual@[j] == is_manual(
                    model,
                    out,
                    stale@[j] as int,
                ),
            forall|j: int|
                0 <= j < k ==> (#[trigger] stale_rules@[j])@ == stale_rules_of(model, out)[j],
        decreases stale.len() - k,
    {
        assert(stale@[k as int] < rules.len());
        let rule = &rules[stale[k]];
        assert(model[stale@[k as int] as int] == rule@);
        assert(out[k as int] == stale@[k as int] as int);
        stale_rules.push(
            StaleRule {
                setting: rule.setting.clone(),
                pattern: rule.pattern.clone(),
                line: rule.line,
                manual: manual[k],
            },
        );
        k = k + 1;
    }
    assert(stale_model(stale_rules@) =~= stale_rules_of(model, out));
    Ok(
        CleanConfigReport {
            stale_rules,
            cleaned,
            original: source.to_owned(),
            display_path: path.to_owned(),
        },
    )
}

// --------------------------------------------------------------------- the report

/// How many of the first `n` rules have to be taken out by hand.
pub open spec fn manual_count(v: Seq<StaleRuleV>, n: int) -> int
    decreases n,
{
    if n <= 0 {
        0
    } else {
        manual_count(v, n - 1) + if v[n - 1].manual {
            1int
        } else {
            0int
        }
    }
}

/// Those of the first `n` rules that have to be taken out by hand, one per line.
pub open spec fn manual_lines(v: Seq<StaleRuleV>, path: Seq<char>, n: int) -> Seq<char>
    decreases n,
{
    if n <= 0 {
        Seq::empty()
    } else if v[n - 1].manual {
        manual_lines(v, path, n - 1) + ("  "@ + path + ":"@ + decimal(v[n - 1].line as nat)
            + ": `"@ + v[n - 1].setting + "` rule `"@ + v[n - 1].pattern + "`\n"@)
    } else {
        manual_lines(v, path, n - 1)
    }
}

/// What is said of the rules that have to be taken out by hand.
pub open spec fn manual_text(v: Seq<StaleRuleV>, path: Seq<char>) -> Seq<char> {
    let n = manual_count(v, v.len() as int);
    if n == 0 {
        Seq::empty()
    } else {
        decimal(n as nat) + (if n == 1 {
            " stale rule shares"@
        } else {
            " stale rules share"@
        }) + " a line with a rule that is still in use (flow style, `[a, b]`):\n"@ + manual_lines(
            v,
            path,
            v.len() as int,
        ) + "Remove "@ + (if n == 1 {
            "it"@
        } else {
            "them"@
        }) + " by hand, or rewrite the list as an indented block and run this again.\n"@
    }
}

proof fn a_manual_rule_counts(v: Seq<StaleRuleV>, n: int)
    requires
        0 <= n <= v.len(),
    ensures
        0 <= manual_count(v, n) <= n,
        manual_count(v, n) > 0 <==> exists|i: int| 0 <= i < n && (#[trigger] v[i]).manual,
    decreases n,
{
    if n > 0 {
        a_manual_rule_counts(v, n - 1);
        if v[n - 1].manual {
            assert(v[n - 1].manual);
        }
    }
}

impl CleanConfigReport {
    /// No rule is stale.
    pub fn is_clean(&self) -> (b: bool)
        ensures
            b == (self.stale_rules.len() == 0),
    {
        self.stale_rules.len() == 0
    }

    /// Whether writing changes the file.
    pub fn has_edit(&self) -> (b: bool)
        ensures
            b == (self.cleaned@ != self.original@),
    {
        !same_text(&self.cleaned, &self.original)
    }

    fn count_manual(&self) -> (n: usize)
        ensures
            n == manual_count(stale_model(self.stale_rules@), self.stale_rules.len() as int),
    {
        let ghost model = stale_model(self.stale_rules@);
        let mut n: usize = 0;
        let mut i: usize = 0;
        while i < self.stale_rules.len()
            invariant
                n <= i <= self.stale_rules.len(),
                model == stale_model(self.stale_rules@),
                n == manual_count(model, i as int),
            decreases self.stale_rules.len() - i,
        {
            assert(model[i as int] == self.stale_rules@[i as int]@);
            if self.stale_rules[i].manual {
                n = n + 1;
            }
            i = i + 1;
        }
        n
    }

    /// Whether a rule has to be taken out by hand.
    pub fn has_manual(&self) -> (b: bool)
        ensures
            b == exists|i: int|
                0 <= i < self.stale_rules.len() && (#[trigger] self.stale_rules@[i]).manual,
    {
        let ghost model = stale_model(self.stale_rules@);
        proof {
            assert(model.len() == self.stale_rules.len());
            a_manual_rule_counts(model, model.len() as int);
            if exists|i: int|
                0 <= i < self.stale_rules.len() && (#[trigger] self.stale_rules@[i]).manual {
                let i = choose|i: int|
                    0 <= i < self.stale_rules.len() && (#[trigger] self.stale_rules@[i]).manual;
                assert(model[i].manual);
            }
            if exists|i: int| 0 <= i < model.len() && (#[trigger] model[i]).manual {
                let i = choose|i: int| 0 <= i < model.len() && (#[trigger] model[i]).manual;
                assert(self.stale_rules@[i].manual);
            }
        }
        self.count_manual() > 0
    }

    /// The stale rules that writing leaves in place, and what to do about them.
    /// Empty where there are none.
    pub fn manual_note(&self) -> (out: String)
        ensures
            out@ == manual_text(stale_model(self.stale_rules@), self.display_path@),
    {
        let ghost model = stale_model(self.stale_rules@);
        assert(model.len() == self.stale_rules.len());
        let count = self.count_manual();
        if count == 0 {
            return String::new();
        }
        let mut out = decimal_text(count as u64);
        out.append(
            if count == 1 {
                " stale rule shares"
            } else {
                " stale rules share"
            },
        );
        out.append(" a line with a rule that is still in use (flow style, `[a, b]`):\n");
        let ghost head = out@;
        let mut i: usize = 0;
        assert(head + manual_lines(model, self.display_path@, 0) =~= head);
        while i < self.stale_rules.len()
            invariant
                i <= self.stale_rules.len(),
                model == stale_model(self.stale_rules@),
                out@ == head + manual_lines(model, self.display_path@, i as int),
            decreases self.stale_rules.len() - i,
        {
            let rule = &self.stale_rules[i];
            assert(model[i as int] == rule@);
            if rule.manual {
                out.append("  ");
                out.append(&self.display_path);
                out.append(":");
                out.append(&decimal_text(rule.line as u64));
                out.append(": `");
                out.append(&rule.setting);
                out.append("` rule `");
                out.append(&rule.pattern);
                out.append("`\n");
            }
            i = i + 1;
            assert(out@ =~= head + manual_lines(model, self.display_path@, i as int));
        }
        out.append("Remove ");
        out.append(
            if count == 1 {
                "it"
            } else {
                "them"
            },
        );
        out.append(" by hand, or rewrite the list as an indented block and run this again.\n");
        out
    }

    /// What writing would change, as a unified diff.
    pub fn diff(&self) -> (out: String)
        ensures
            out@ == if self.stale_rules.len() == 0 {
                "Config ignore rules are clean\n"@
            } else if self.cleaned@ == self.original@ {
                Seq::empty()
            } else {
                "--- "@ + self.display_path@ + "\n+++ "@ + self.display_path@ + "\n"@ + hunks_of(
                    self.original@,
                    self.cleaned@,
                    3,
                )
            },
    {
        if self.is_clean() {
            return "Config ignore rules are clean\n".to_owned();
        }
        if !self.has_edit() {
            return String::new();
        }
        let mut out = concat("--- ", &self.display_path);
        out.append("\n+++ ");
        out.append(&self.display_path);
        out.append("\n");
        out.append(&diff_hunks(&self.original, &self.cleaned, 3));
        out
    }
}

// -------------------------------------------------------------------------- laws

/// Writing never takes out a rule that is in use: its line stays. A container
/// that opens on the line of a rule has to hold that rule, as in every block
/// of a config file.
pub proof fn a_rule_in_use_keeps_its_line(rules: Seq<RuleV>, stale: Seq<int>, i: int)
    requires
        0 <= i < rules.len(),
        !stale.contains(i),
        forall|j: int, k: int|
            0 <= j < rules.len() && 0 <= k < rules.len() && (
            #[trigger] rules[j]).container_lines.contains((#[trigger] rules[k]).line)
                ==> rules[k].container_lines.contains(rules[k].line),
    ensures
        !removes_line(rules, stale, rules[i].line),
{
    let line = rules[i].line;
    if removes_line(rules, stale, line) {
        let j = choose|j: int|
            0 <= j < rules.len() && is_removed(rules, stale, j) && #[trigger] takes_out(
                rules,
                stale,
                j,
                line,
            );
        if rules[j].line == line {
            assert(keeps_line(rules, stale, line));
        } else {
            assert(rules[j].container_lines.contains(rules[i].line));
            assert(rules[i].container_lines.contains(line));
            assert(!is_removed(rules, stale, i));
            assert(keeps_container(rules, stale, line));
        }
    }
}

/// Where every stale rule has to be taken out by hand, writing changes nothing.
pub proof fn manual_rules_leave_the_file_alone(
    rules: Seq<RuleV>,
    stale: Seq<int>,
    source: Seq<char>,
)
    requires
        forall|k: int|
            0 <= k < stale.len() ==> is_manual(rules, stale, #[trigger] stale[k]),
    ensures
        without_lines(source, removed_lines(rules, stale)) == source,
{
    let none = removed_lines(rules, stale);
    assert forall|line: usize| !none.contains(line) by {
        if none.contains(line) {
            let i = choose|i: int|
                0 <= i < rules.len() && is_removed(rules, stale, i) && #[trigger] takes_out(
                    rules,
                    stale,
                    i,
                    line as int,
                );
            let k = stale.index_of(i);
            assert(is_manual(rules, stale, stale[k]));
        }
    }
    let lines = lines_of(source);
    nothing_is_dropped(lines, none, lines.len() as int);
    assert(lines.take(lines.len() as int) =~= lines);
    lines_join_to_the_text(source);
}

proof fn nothing_is_dropped(lines: Seq<Seq<char>>, stale: Set<usize>, n: int)
    requires
        0 <= n <= lines.len(),
        forall|line: usize| !stale.contains(line),
    ensures
        kept_upto(lines, stale, n) == joined(lines.take(n)),
    decreases n,
{
    if n > 0 {
        nothing_is_dropped(lines, stale, n - 1);
        assert(lines.take(n) =~= lines.take(n - 1).push(lines[n - 1]));
        joined_push(lines.take(n - 1), lines[n - 1]);
    } else {
        assert(joined(lines.take(0)) =~= Seq::empty());
    }
}

proof fn lines_are_not_empty(s: Seq<char>)
    ensures
        forall|i: int| 0 <= i < lines_of(s).len() ==> (#[trigger] lines_of(s)[i]).len() > 0,
    decreases s.len(),
{
    let p = position_of(s, '\n');
    position_is_first(s, '\n');
    if p < s.len() {
        lines_are_not_empty(s.skip(p + 1));
        let rest = lines_of(s.skip(p + 1));
        assert forall|i: int| 0 <= i < lines_of(s).len() implies (#[trigger] lines_of(s)[i]).len()
            > 0 by {
            if i > 0 {
                assert(lines_of(s)[i] == rest[i - 1]);
            }
        }
    }
}

proof fn a_dropped_line_shortens(lines: Seq<Seq<char>>, stale: Set<usize>, n: int, k: int)
    requires
        0 <= n <= lines.len(),
        forall|i: int| 0 <= i < lines.len() ==> (#[trigger] lines[i]).len() > 0,
    ensures
        kept_upto(lines, stale, n).len() <= joined(lines.take(n)).len(),
        1 <= k <= n && drops(lines, stale, k) ==> kept_upto(lines, stale, n).len() < joined(
            lines.take(n),
        ).len(),
    decreases n,
{
    if n > 0 {
        a_dropped_line_shortens(lines, stale, n - 1, k);
        assert(lines.take(n) =~= lines.take(n - 1).push(lines[n - 1]));
        joined_push(lines.take(n - 1), lines[n - 1]);
        assert(lines[n - 1].len() > 0);
    } else {
        assert(lines.take(0) =~= Seq::empty());
    }
}

/// Writing changes the file exactly where a stale rule need not be taken out by
/// hand. The rules stand on lines of the file.
pub proof fn a_cleanup_edits_exactly_for_a_rule_it_can_remove(
    rules: Seq<RuleV>,
    reports: ReportsV,
    source: Seq<char>,
)
    requires
        forall|i: int|
            0 <= i < rules.len() ==> 1 <= (#[trigger] rules[i]).line <= lines_of(source).len()
                && rules[i].line <= usize::MAX,
    ensures
        ({
            let stale = stale_upto(rules, reports, rules.len() as int);
            let reported = stale_rules_of(rules, stale);
            without_lines(source, removed_lines(rules, stale)) != source <==> exists|k: int|
                0 <= k < reported.len() && !(#[trigger] reported[k]).manual
        }),
{
    let stale = stale_upto(rules, reports, rules.len() as int);
    let reported = stale_rules_of(rules, stale);
    let lines = lines_of(source);
    let gone = removed_lines(rules, stale);
    stale_places_are_rules(rules, reports, rules.len() as int);
    if exists|k: int| 0 <= k < reported.len() && !(#[trigger] reported[k]).manual {
        let k = choose|k: int| 0 <= k < reported.len() && !(#[trigger] reported[k]).manual;
        let i = stale[k];
        assert(stale.contains(i));
        assert(is_removed(rules, stale, i));
        let line = rules[i].line;
        assert(takes_out(rules, stale, i, line));
        assert(gone.contains(line as usize));
        lines_are_not_empty(source);
        a_dropped_line_shortens(lines, gone, lines.len() as int, line);
        assert(lines.take(lines.len() as int) =~= lines);
        lines_join_to_the_text(source);
    } else {
        assert forall|k: int| 0 <= k < stale.len() implies is_manual(
            rules,
            stale,
            #[trigger] stale[k],
        ) by {
            assert(reported[k].manual);
        }
        manual_rules_leave_the_file_alone(rules, stale, source);
    }
}

} // verus!
