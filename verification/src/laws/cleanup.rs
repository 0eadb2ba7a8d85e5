//! Which ignore rules are stale, and which lines go with them.
use crate::clean_config::{
    drops, group_locales, group_rules, indent_of, is_manual, is_note, is_removed, item_rules,
    keeps_container, keeps_line, kept_upto, kind_of, notes_on, removes_line, rules_of, rules_under,
    setting_rules, settings_rules, stale_upto, suppresses, suppresses_row, takes_out, without_lines,
    Kind, ReportsV, RuleV,
};
use crate::config::ConfigV;
use crate::laws::values::is_ignored;
use crate::pattern::accepts;
use crate::report::KeyRowV;
use crate::scan::byte_len;
use crate::text::{found_in_the_middle, has_text, lines_of, middle_is_found, trim_start_of};
use crate::yaml::NodeV;
use vstd::prelude::*;

verus! {

/// The rule speaks of the row: it holds for the locale of the row, and its
/// pattern matches the key.
pub open spec fn speaks_of(rule: RuleV, row: KeyRowV) -> bool {
    accepts(rule.pattern, row.key) && match rule.locales {
        None => true,
        Some(names) => names.contains(row.locale) || names.contains("all"@),
    }
}

/// The rule speaks of one of the rows.
pub open spec fn speaks_of_one(rule: RuleV, rows: Seq<KeyRowV>) -> bool {
    exists|row: KeyRowV| #[trigger] rows.contains(row) && speaks_of(rule, row)
}

proof fn suppressing_is_speaking(rule: RuleV, rows: Seq<KeyRowV>)
    ensures
        suppresses(rule, rows) <==> speaks_of_one(rule, rows),
{
    if suppresses(rule, rows) {
        let i = choose|i: int| 0 <= i < rows.len() && suppresses_row(rule, #[trigger] rows[i]);
        assert(rows.contains(rows[i]));
    }
    if speaks_of_one(rule, rows) {
        let row = choose|row: KeyRowV| #[trigger] rows.contains(row) && speaks_of(rule, row);
        let i = rows.index_of(row);
        assert(suppresses_row(rule, rows[i]));
    }
}

/// The rule hides something: it speaks of a row of the check that its setting
/// belongs to. A rule of `ignore` belongs to all four.
pub open spec fn hides_something(rule: RuleV, reports: ReportsV) -> bool {
    let all = rule.kind == Kind::Global;
    ||| (all || rule.kind == Kind::Missing) && speaks_of_one(rule, reports.missing)
    ||| (all || rule.kind == Kind::Unused) && speaks_of_one(rule, reports.unused)
    ||| (all || rule.kind == Kind::EqBase) && speaks_of_one(rule, reports.eq_base)
    ||| (all || rule.kind == Kind::Interpolations) && speaks_of_one(rule, reports.interpolations)
}

/// A rule is stale exactly where it hides nothing of the check that it belongs
/// to.
pub proof fn a_rule_is_stale_exactly_where_it_hides_nothing(
    rules: Seq<RuleV>,
    reports: ReportsV,
    n: int,
    i: int,
)
    requires
        0 <= n <= rules.len(),
    ensures
        stale_upto(rules, reports, n).contains(i) <==> 0 <= i < n && !hides_something(
            rules[i],
            reports,
        ),
    decreases n,
{
    if n > 0 {
        a_rule_is_stale_exactly_where_it_hides_nothing(rules, reports, n - 1, i);
        let rule = rules[n - 1];
        suppressing_is_speaking(rule, reports.missing);
        suppressing_is_speaking(rule, reports.unused);
        suppressing_is_speaking(rule, reports.eq_base);
        suppressing_is_speaking(rule, reports.interpolations);
        let before = stale_upto(rules, reports, n - 1);
        let now = stale_upto(rules, reports, n);
        if now.len() > before.len() {
            assert(now[before.len() as int] == n - 1);
            if before.contains(i) {
                assert(now[before.index_of(i)] == i);
            }
            if now.contains(i) && i != n - 1 {
                assert(before[now.index_of(i)] == i);
            }
        }
    }
}

/// A configuration without its rules ignores nothing.
pub proof fn without_rules_nothing_is_ignored(cfg: ConfigV, locale: Option<Seq<char>>, key: Seq<char>)
    ensures
        ({
            let bare = cfg.without_rules();
            &&& !is_ignored(bare, bare.ignore_missing, locale, key)
            &&& !is_ignored(bare, bare.ignore_unused, locale, key)
            &&& !is_ignored(bare, bare.ignore_eq_base, locale, key)
            &&& !is_ignored(bare, bare.ignore_inconsistent_interpolations, locale, key)
            &&& bare.data == cfg.data
            &&& bare.search == cfg.search
            &&& bare.base_locale == cfg.base_locale
            &&& bare.locales == cfg.locales
        }),
{
}

// ------------------------------------------------------------------- the rules of a file

/// The setting that rules of a kind stand under.
pub open spec fn setting_of(kind: Kind) -> Seq<char> {
    match kind {
        Kind::Global => "ignore"@,
        Kind::Missing => "ignore_missing"@,
        Kind::Unused => "ignore_unused"@,
        Kind::EqBase => "ignore_eq_base"@,
        Kind::Interpolations => "ignore_inconsistent_interpolations"@,
    }
}

/// A pattern stands in the node, in the line, outside of any group.
pub open spec fn stands_in_list(node: NodeV, pattern: Seq<char>, line: int) -> bool {
    match node {
        NodeV::Scalar { value, line: own, .. } => value == pattern && own == line,
        NodeV::List { items, .. } => exists|i: int|
            0 <= i < items.len() && (#[trigger] items[i]).text() == Some(pattern)
                && items[i].line() == line,
        NodeV::Mapping { .. } => false,
    }
}

proof fn items_hold_their_rules(
    items: Seq<NodeV>,
    n: nat,
    setting: Seq<char>,
    kind: Kind,
    locales: Option<Seq<Seq<char>>>,
    containers: Seq<int>,
    i: int,
)
    requires
        0 <= i < n <= items.len(),
        items[i].text() is Some,
    ensures
        item_rules(items, n, setting, kind, locales, containers).contains(
            RuleV {
                setting,
                pattern: items[i].text()->Some_0,
                line: items[i].line(),
                locales,
                kind,
                container_lines: containers,
            },
        ),
    decreases n,
{
    let rule = RuleV {
        setting,
        pattern: items[i].text()->Some_0,
        line: items[i].line(),
        locales,
        kind,
        container_lines: containers,
    };
    let before = item_rules(items, (n - 1) as nat, setting, kind, locales, containers);
    let own = rules_under(items[n - 1], setting, kind, locales, containers);
    if i == n - 1 {
        assert(own[0] == rule);
        assert((before + own)[before.len() as int] == rule);
    } else {
        items_hold_their_rules(items, (n - 1) as nat, setting, kind, locales, containers, i);
        assert((before + own)[before.index_of(rule)] == rule);
    }
}

proof fn a_list_holds_its_rules(
    node: NodeV,
    setting: Seq<char>,
    kind: Kind,
    locales: Option<Seq<Seq<char>>>,
    containers: Seq<int>,
    pattern: Seq<char>,
    line: int,
)
    requires
        stands_in_list(node, pattern, line),
    ensures
        rules_under(node, setting, kind, locales, containers).contains(
            RuleV { setting, pattern, line, locales, kind, container_lines: containers },
        ),
{
    match node {
        NodeV::Scalar { .. } => {
            let all = rules_under(node, setting, kind, locales, containers);
            assert(all[0] == RuleV {
                setting,
                pattern,
                line,
                locales,
                kind,
                container_lines: containers,
            });
        },
        NodeV::List { items, .. } => {
            let i = choose|i: int|
                0 <= i < items.len() && (#[trigger] items[i]).text() == Some(pattern)
                    && items[i].line() == line;
            items_hold_their_rules(items, items.len(), setting, kind, locales, containers, i);
        },
        NodeV::Mapping { .. } => {},
    }
}

proof fn groups_hold_their_rules(
    entries: Seq<(NodeV, NodeV)>,
    n: nat,
    setting: Seq<char>,
    kind: Kind,
    containers: Seq<int>,
    g: int,
    pattern: Seq<char>,
    line: int,
)
    requires
        0 <= g < n <= entries.len(),
        stands_in_list(entries[g].1, pattern, line),
    ensures
        group_rules(entries, n, setting, kind, containers).contains(
            RuleV {
                setting,
                pattern,
                line,
                locales: group_locales(entries[g].0),
                kind,
                container_lines: containers.push(entries[g].0.line()),
            },
        ),
    decreases n,
{
    let names = group_locales(entries[g].0);
    let inner = containers.push(entries[g].0.line());
    let rule = RuleV { setting, pattern, line, locales: names, kind, container_lines: inner };
    let before = group_rules(entries, (n - 1) as nat, setting, kind, containers);
    let own = rules_under(
        entries[n - 1].1,
        setting,
        kind,
        group_locales(entries[n - 1].0),
        containers.push(entries[n - 1].0.line()),
    );
    if g == n - 1 {
        a_list_holds_its_rules(entries[g].1, setting, kind, names, inner, pattern, line);
        assert((before + own)[before.len() + own.index_of(rule)] == rule);
    } else {
        groups_hold_their_rules(
            entries,
            (n - 1) as nat,
            setting,
            kind,
            containers,
            g,
            pattern,
            line,
        );
        assert((before + own)[before.index_of(rule)] == rule);
    }
}

proof fn settings_hold_their_rules(entries: Seq<(NodeV, NodeV)>, n: int, i: int, rule: RuleV)
    requires
        0 <= i < n <= entries.len(),
        setting_rules(entries[i].0, entries[i].1).contains(rule),
    ensures
        settings_rules(entries, n).contains(rule),
    decreases n,
{
    let before = settings_rules(entries, n - 1);
    let own = setting_rules(entries[n - 1].0, entries[n - 1].1);
    if i == n - 1 {
        assert((before + own)[before.len() + own.index_of(rule)] == rule);
    } else {
        settings_hold_their_rules(entries, n - 1, i, rule);
        assert((before + own)[before.index_of(rule)] == rule);
    }
}

proof fn kinds_have_their_settings(kind: Kind)
    ensures
        kind_of(setting_of(kind)) == Some(kind),
{
    crate::digest::setting_names_differ();
    reveal_strlit("ignore_missing");
    reveal_strlit("ignore_eq_base");
}

/// Every pattern of an ignore list is looked at, as one of the check that the
/// list belongs to: in a list for all locales as one for every locale, in a
/// group as one for the locales that the group names.
pub proof fn every_pattern_of_a_list_is_looked_at(
    entries: Seq<(NodeV, NodeV)>,
    line_of_root: int,
    i: int,
    kind: Kind,
    pattern: Seq<char>,
    line: int,
    g: int,
)
    requires
        0 <= i < entries.len(),
        entries[i].0.text() == Some(setting_of(kind)),
    ensures
        ({
            let root = NodeV::Mapping { entries, line: line_of_root };
            let rules = rules_of(root);
            &&& stands_in_list(entries[i].1, pattern, line) ==> rules.contains(
                RuleV {
                    setting: setting_of(kind),
                    pattern,
                    line,
                    locales: None,
                    kind,
                    container_lines: seq![entries[i].0.line()],
                },
            )
            &&& entries[i].1.entries() matches Some(groups) ==> (0 <= g < groups.len()
                && stands_in_list(groups[g].1, pattern, line) ==> rules.contains(
                RuleV {
                    setting: setting_of(kind),
                    pattern,
                    line,
                    locales: group_locales(groups[g].0),
                    kind,
                    container_lines: seq![entries[i].0.line(), groups[g].0.line()],
                },
            ))
        }),
{
    kinds_have_their_settings(kind);
    let setting = setting_of(kind);
    let containers = seq![entries[i].0.line()];
    let n = entries.len() as int;
    if stands_in_list(entries[i].1, pattern, line) {
        a_list_holds_its_rules(entries[i].1, setting, kind, None, containers, pattern, line);
        settings_hold_their_rules(
            entries,
            n,
            i,
            RuleV { setting, pattern, line, locales: None, kind, container_lines: containers },
        );
    }
    if let Some(groups) = entries[i].1.entries() {
        if 0 <= g < groups.len() && stands_in_list(groups[g].1, pattern, line) {
            groups_hold_their_rules(
                groups,
                groups.len(),
                setting,
                kind,
                containers,
                g,
                pattern,
                line,
            );
            let inner = containers.push(groups[g].0.line());
            assert(inner =~= seq![entries[i].0.line(), groups[g].0.line()]);
            settings_hold_their_rules(
                entries,
                n,
                i,
                RuleV {
                    setting,
                    pattern,
                    line,
                    locales: group_locales(groups[g].0),
                    kind,
                    container_lines: inner,
                },
            );
        }
    }
}

// ------------------------------------------------------------------------- the lines

/// A stale rule that shares its line with no rule in use loses its line. A list
/// loses its own line exactly where all its rules go. No other line is taken
/// out.
pub proof fn exactly_the_lines_of_removable_rules_go(
    rules: Seq<RuleV>,
    stale: Seq<int>,
    i: int,
    line: int,
)
    requires
        0 <= i < rules.len(),
        forall|k: int| #[trigger] stale.contains(k) ==> 0 <= k < rules.len(),
    ensures
        stale.contains(i) && (forall|j: int|
            0 <= j < rules.len() && (#[trigger] rules[j]).line == rules[i].line ==> stale.contains(
                j,
            )) ==> removes_line(rules, stale, rules[i].line),
        removes_line(rules, stale, line) ==> exists|j: int| #[trigger]
            stale.contains(j) && (rules[j].line == line || rules[j].container_lines.contains(line)),
        rules[i].container_lines.contains(line) && (forall|j: int|
            0 <= j < rules.len() && (#[trigger] rules[j]).container_lines.contains(line)
                ==> stale.contains(j) && !is_manual(rules, stale, j)) ==> removes_line(
            rules,
            stale,
            line,
        ),
{
    if stale.contains(i) && forall|j: int|
        0 <= j < rules.len() && (#[trigger] rules[j]).line == rules[i].line ==> stale.contains(j) {
        assert(!keeps_line(rules, stale, rules[i].line));
        assert(is_removed(rules, stale, i));
        assert(takes_out(rules, stale, i, rules[i].line));
    }
    if removes_line(rules, stale, line) {
        let j = choose|j: int|
            0 <= j < rules.len() && is_removed(rules, stale, j) && #[trigger] takes_out(
                rules,
                stale,
                j,
                line,
            );
        assert(stale.contains(j));
    }
    if rules[i].container_lines.contains(line) && forall|j: int|
        0 <= j < rules.len() && (#[trigger] rules[j]).container_lines.contains(line)
            ==> stale.contains(j) && !is_manual(rules, stale, j) {
        assert(!keeps_container(rules, stale, line)) by {
            if keeps_container(rules, stale, line) {
                let j = choose|j: int|
                    0 <= j < rules.len() && !is_removed(rules, stale, j) && (
                    #[trigger] rules[j]).container_lines.contains(line);
                assert(is_removed(rules, stale, j));
            }
        }
        assert(is_removed(rules, stale, i));
        assert(takes_out(rules, stale, i, line));
    }
}

proof fn a_kept_line_stays(lines: Seq<Seq<char>>, stale: Set<usize>, n: int, k: int)
    requires
        1 <= k <= n <= lines.len(),
        !drops(lines, stale, k),
    ensures
        has_text(kept_upto(lines, stale, n), lines[k - 1]),
    decreases n,
{
    let before = kept_upto(lines, stale, n - 1);
    let none = Seq::<char>::empty();
    if k == n {
        middle_is_found(before, lines[n - 1], none);
        assert(before + lines[n - 1] + none =~= kept_upto(lines, stale, n));
    } else {
        a_kept_line_stays(lines, stale, n - 1, k);
        let last = if drops(lines, stale, n) {
            none
        } else {
            lines[n - 1]
        };
        found_in_the_middle(none, before, last, lines[k - 1]);
        assert(none + before + last =~= kept_upto(lines, stale, n));
    }
}

/// A line stays in the file unless it is taken out, or is a comment directly
/// above a line that is.
pub proof fn every_other_line_stays(source: Seq<char>, stale: Set<usize>, k: usize)
    requires
        1 <= k <= lines_of(source).len(),
        !stale.contains(k),
        forall|below: usize| #[trigger]
            stale.contains(below) ==> !notes_on(lines_of(source), k as int, below as int),
    ensures
        has_text(without_lines(source, stale), lines_of(source)[k - 1]),
{
    let lines = lines_of(source);
    assert(k as int as usize == k);
    assert(!drops(lines, stale, k as int));
    a_kept_line_stays(lines, stale, lines.len() as int, k as int);
}

/// The line is a comment that is indented like the other line.
pub open spec fn comments_on(line: Seq<char>, other: Seq<char>) -> bool {
    let text = trim_start_of(line);
    &&& text.len() > 0 && text[0] == '#'
    &&& byte_len(line) - byte_len(text) == byte_len(other) - byte_len(trim_start_of(other))
}

/// A line goes: it is taken out itself, or it belongs to the comments directly
/// above a line that is.
pub open spec fn goes(lines: Seq<Seq<char>>, stale: Set<usize>, k: usize) -> bool {
    stale.contains(k) || exists|below: usize|
        k < below <= lines.len() && #[trigger] stale.contains(below) && forall|j: int|
            k <= j < below ==> comments_on(#[trigger] lines[j - 1], lines[below - 1])
}

/// Exactly the lines that are taken out go, with the comments on them.
pub proof fn exactly_the_removed_lines_go_with_their_comments(
    lines: Seq<Seq<char>>,
    stale: Set<usize>,
    n: usize,
)
    requires
        1 <= n <= lines.len(),
    ensures
        kept_upto(lines, stale, n as int) == kept_upto(lines, stale, n - 1) + (if goes(
            lines,
            stale,
            n,
        ) {
            Seq::empty()
        } else {
            lines[n - 1]
        }),
        kept_upto(lines, stale, 0) == Seq::<char>::empty(),
{
    assert(n as int as usize == n);
    assert(goes(lines, stale, n) <==> drops(lines, stale, n as int)) by {
        if goes(lines, stale, n) && !stale.contains(n) {
            let below = choose|below: usize|
                n < below <= lines.len() && #[trigger] stale.contains(below) && forall|j: int|
                    n <= j < below ==> comments_on(#[trigger] lines[j - 1], lines[below - 1]);
            assert forall|j: int| n <= j < below implies is_note(
                #[trigger] lines[j - 1],
                indent_of(lines[below - 1]),
            ) by {
                assert(comments_on(lines[j - 1], lines[below - 1]));
                a_comment_starts_with_its_mark(trim_start_of(lines[j - 1]));
            }
            assert(notes_on(lines, n as int, below as int));
        }
        if drops(lines, stale, n as int) && !stale.contains(n) {
            let below = choose|below: usize| #[trigger]
                stale.contains(below) && notes_on(lines, n as int, below as int);
            assert forall|j: int| n <= j < below implies comments_on(
                #[trigger] lines[j - 1],
                lines[below - 1],
            ) by {
                assert(is_note(lines[j - 1], indent_of(lines[below - 1])));
                a_comment_starts_with_its_mark(trim_start_of(lines[j - 1]));
            }
        }
    }
    let before = kept_upto(lines, stale, n - 1);
    assert(before + Seq::<char>::empty() =~= before);
}

proof fn a_comment_starts_with_its_mark(s: Seq<char>)
    ensures
        "#"@.is_prefix_of(s) <==> s.len() > 0 && s[0] == '#',
{
    reveal_strlit("#");
    if "#"@.is_prefix_of(s) {
        assert(s.subrange(0, 1)[0] == s[0]);
    }
    if s.len() > 0 && s[0] == '#' {
        assert(s.subrange(0, 1) =~= "#"@);
    }
}

/// A stale rule is left to the reader exactly where a rule in use stands in its
/// line.
pub proof fn a_stale_rule_stays_exactly_beside_one_in_use(
    rules: Seq<RuleV>,
    stale: Seq<int>,
    i: int,
)
    requires
        0 <= i < rules.len(),
        stale.contains(i),
    ensures
        is_manual(rules, stale, i) <==> exists|j: int|
            0 <= j < rules.len() && !stale.contains(j) && (#[trigger] rules[j]).line
                == rules[i].line,
        is_removed(rules, stale, i) <==> forall|j: int|
            0 <= j < rules.len() && (#[trigger] rules[j]).line == rules[i].line
                ==> stale.contains(j),
{
}

} // verus!
