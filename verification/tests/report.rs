//! What the reports say.
use i18n_tasks_rs::pattern::PatternSet;
use i18n_tasks_rs::plural::{plural_suffix, required_categories};
use i18n_tasks_rs::report::find::to_text;
use i18n_tasks_rs::report::interpolations::{reserved_key, variable_name, variables};
use i18n_tasks_rs::scan::Occurrence;
use i18n_tasks_rs::textmap::TextMap;
use i18n_tasks_rs::used::UsedKeys;

#[test]
fn plural_suffixes() {
    assert!(plural_suffix("one"));
    assert!(plural_suffix("other"));
    assert!(plural_suffix("0"));
    assert!(plural_suffix("1"));
    assert!(!plural_suffix("title"));
}

#[test]
fn required_categories_match_rails_i18n() {
    assert_eq!(required_categories("de"), Some(vec!["one", "other"]));
    assert_eq!(required_categories("en"), Some(vec!["one", "other"]));
    assert_eq!(required_categories("fr"), Some(vec!["one", "other"]));
    assert_eq!(
        required_categories("ru"),
        Some(vec!["one", "few", "many", "other"])
    );
    assert_eq!(required_categories("ja"), Some(vec!["other"]));
    assert_eq!(required_categories("ar").unwrap().len(), 6);
    assert_eq!(required_categories("pt-br"), Some(vec!["one", "other"]));
    assert_eq!(required_categories("xx"), None);
}

#[test]
fn extracts_variables() {
    assert_eq!(variables("Hello %{name}!"), vec!["%{name}"]);
    assert_eq!(variables("%{a} and %{b}"), vec!["%{a}", "%{b}"]);
    assert_eq!(variables("no variables"), Vec::<&str>::new());
}

#[test]
fn escaped_percent_does_not_match() {
    assert_eq!(variables("%%{scope}"), Vec::<&str>::new());
    assert_eq!(variables("100%%{a}"), Vec::<&str>::new());
    assert_eq!(variables("%{a}%%{b}"), vec!["%{a}"]);
}

#[test]
fn empty_braces_do_not_match() {
    assert_eq!(variables("%{}"), Vec::<&str>::new());
}

#[test]
fn reserved_names_are_recognised() {
    let names: Vec<&str> = variables("%{scope} %{name} %{format}")
        .into_iter()
        .map(variable_name)
        .filter(|n| reserved_key(n))
        .collect();
    assert_eq!(names, vec!["scope", "format"]);
    let reserved = [
        "cascade",
        "deep_interpolation",
        "skip_interpolation",
        "default",
        "exception_handler",
        "fallback",
        "fallback_in_progress",
        "fallback_original_locale",
        "format",
        "object",
        "raise",
        "resolve",
        "scope",
        "separator",
        "throw",
    ];
    assert_eq!(reserved.iter().filter(|n| reserved_key(n)).count(), 15);
}

fn occurrence(path: &str, line: usize, key: &str) -> Occurrence {
    Occurrence {
        path: path.to_string(),
        snippet: format!("t('{key}')"),
        pos: 0,
        line_pos: 3,
        line_num: line,
        raw_key: key.to_string(),
        candidate_keys: vec![key.to_string()],
    }
}

fn used() -> UsedKeys {
    let mut keys = TextMap::new();
    keys.insert(
        "a.b".to_string(),
        vec![
            occurrence("app/a.rb", 2, "a.b"),
            occurrence("app/b.rb", 7, "a.b"),
        ],
    );
    UsedKeys {
        keys,
        patterns: PatternSet::new(&["p.*".to_string()]),
        pattern_sources: vec![("p.*".to_string(), occurrence("app/c.rb", 4, "p.x"))],
        opaque: vec![occurrence("app/d.rb", 9, "")],
        files_scanned: 4,
        files_prefiltered: 1,
    }
}

#[test]
fn the_text_form_indents_the_occurrences_under_the_key() {
    assert_eq!(
        to_text(&used()),
        "a.b\n  app/a.rb:2:3\n  app/b.rb:7:3\np.*  (pattern)\n  app/c.rb:4\n(opaque)  app/d.rb:9\n"
    );
}
