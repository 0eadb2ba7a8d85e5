//! Which lines of a config are stale.
use i18n_tasks_rs::clean_config::{removal_plan, Kind, Rule};
use std::collections::BTreeSet;

fn rule(pattern: &str, line: usize, container_lines: &[usize]) -> Rule {
    Rule {
        setting: "ignore_unused".to_string(),
        pattern: pattern.to_string(),
        line,
        locales: None,
        kind: Kind::Unused,
        container_lines: container_lines.to_vec(),
    }
}

#[test]
fn a_block_list_removes_the_line_of_the_stale_rule_only() {
    let rules = vec![rule("bye", 2, &[1]), rule("zzz.*", 3, &[1])];
    let (lines, manual) = removal_plan(&rules, &vec![1]);
    assert_eq!(lines, BTreeSet::from([3]));
    assert_eq!(manual, vec![false]);
}

#[test]
fn a_block_list_of_only_stale_rules_takes_its_setting_with_it() {
    let rules = vec![rule("yyy.*", 2, &[1]), rule("zzz.*", 3, &[1])];
    let (lines, manual) = removal_plan(&rules, &vec![0, 1]);
    assert_eq!(lines, BTreeSet::from([1, 2, 3]));
    assert_eq!(manual, vec![false, false]);
}

#[test]
fn a_flow_list_with_a_live_rule_removes_nothing() {
    let rules = vec![rule("bye", 1, &[1]), rule("zzz.*", 1, &[1])];
    let (lines, manual) = removal_plan(&rules, &vec![1]);
    assert!(lines.is_empty(), "{lines:?}");
    assert_eq!(manual, vec![true]);
}

#[test]
fn a_flow_list_of_only_stale_rules_is_removed() {
    let rules = vec![rule("yyy.*", 1, &[1]), rule("zzz.*", 1, &[1])];
    let (lines, manual) = removal_plan(&rules, &vec![0, 1]);
    assert_eq!(lines, BTreeSet::from([1]));
    assert_eq!(manual, vec![false, false]);
}

#[test]
fn a_locale_group_keeps_its_header_while_a_rule_stays() {
    let rules = vec![rule("bye", 3, &[1, 2]), rule("zzz.*", 4, &[1, 2])];
    let (lines, _) = removal_plan(&rules, &vec![1]);
    assert_eq!(lines, BTreeSet::from([4]));
}
