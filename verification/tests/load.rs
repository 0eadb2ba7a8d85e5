//! How locale data is read.
use i18n_tasks_rs::data::load::{is_symbol_reference, Leaf, LocaleTree, Value};
use i18n_tasks_rs::data::locale_path::{extract_locale, locale_pattern_re, normalize_locale_list};

fn leaf(key: &str) -> Leaf {
    Leaf {
        key: key.to_string(),
        value: Value::Str("v".into()),
        depth: u16::try_from(key.split('.').count()).expect("shallow key"),
        path: "config/locales/en.yml".to_string(),
        odd_segments: None,
    }
}

#[test]
fn a_key_that_is_also_an_interior_node_records_its_whole_chain() {
    for order in [["a.b", "a.b.c"], ["a.b.c", "a.b"]] {
        let mut tree = LocaleTree::default();
        for key in order {
            tree.insert(leaf(key));
        }
        tree.finish();
        assert!(tree.is_interior("a"), "{order:?}");
        assert!(tree.is_interior("a.b"), "{order:?}");
        assert_eq!(tree.children("a"), ["b"], "{order:?}");
        assert_eq!(tree.children("a.b"), ["c"], "{order:?}");
    }
}

#[test]
fn children_stay_in_first_seen_order() {
    let mut tree = LocaleTree::default();
    for key in ["a.z.one", "a.b", "a.z.two", "a.c", "a.b"] {
        tree.insert(leaf(key));
    }
    tree.finish();
    assert_eq!(tree.children("a"), ["z", "b", "c"]);
    assert_eq!(tree.children("a.z"), ["one", "two"]);
}

#[test]
fn value_to_display_string_matches_ruby_to_s() {
    assert_eq!(Value::Nil.to_display_string(), "");
    assert_eq!(Value::Bool(true).to_display_string(), "true");
    assert_eq!(Value::Plain("1.5".into()).to_display_string(), "1.5");
    assert_eq!(
        Value::List(vec![Value::Str("a".into()), Value::Plain("2".into())]).to_display_string(),
        "[\"a\", 2]"
    );
}

#[test]
fn detects_symbol_references() {
    assert!(is_symbol_reference(":other.key"));
    assert!(is_symbol_reference(":other"));
    assert!(!is_symbol_reference(":"));
    assert!(!is_symbol_reference("plain"));
    assert!(!is_symbol_reference(":has spaces"));
}

#[test]
fn locale_list_puts_base_first() {
    assert_eq!(
        normalize_locale_list(&vec!["fr".into(), "de".into(), "en".into()], "de"),
        vec!["de", "en", "fr"]
    );
}

#[test]
fn load_a_multi_byte_read_pattern_still_names_the_locale() {
    assert_eq!(
        locale_of("config/переводы/%{locale}.yml", "config/переводы/ru.yml"),
        Some("ru".to_string())
    );
    assert_eq!(
        locale_of("config/переводы/%{locale}.yml", "config/x/ru.yml"),
        None
    );
}

fn locale_of(pattern: &str, path: &str) -> Option<String> {
    extract_locale(&locale_pattern_re(pattern).expect("pattern compiles"), path)
}

#[test]
fn load_the_read_pattern_decides_which_files_name_a_locale() {
    let files = [
        "config/locales/en.yml",
        "config/locales/es.yml",
        "config/locales/other.fr.yml",
    ];
    let names = |pattern: &str| -> Vec<String> {
        files.iter().filter_map(|f| locale_of(pattern, f)).collect()
    };
    assert_eq!(names("config/locales/%{locale}.yml"), vec!["en", "es"]);
    assert_eq!(
        names("config/locales/*%{locale}.yml"),
        vec!["en", "es", "fr"]
    );
    assert_eq!(names("config/locales/*.%{locale}.yml"), vec!["fr"]);
}

#[test]
fn load_extracts_locale_from_path() {
    assert_eq!(
        locale_of(
            "config/locales/base.%{locale}.yml",
            "config/locales/base.de.yml"
        ),
        Some("de".into())
    );
    assert_eq!(
        locale_of(
            "config/locales/*.%{locale}.yml",
            "config/locales/jobs.fr.yml"
        ),
        Some("fr".into())
    );
    assert_eq!(
        locale_of("config/locales/%{locale}.yml", "config/locales/de.yml"),
        Some("de".into())
    );
    assert_eq!(
        locale_of(
            "config/locales/**/%{locale}.yml",
            "config/locales/a/b/de.yml"
        ),
        Some("de".into())
    );
    assert_eq!(
        locale_of(
            "config/locales/*/%{locale}.yml",
            "config/locales/a/b/de.yml"
        ),
        None
    );
    assert_eq!(
        locale_of(
            "config/locales/%{locale}/models.yml",
            "config/locales/de/models.yml"
        ),
        Some("de".into())
    );
}

#[test]
fn load_extract_locale_rejects_what_cannot_be_a_locale() {
    assert_eq!(
        locale_of("config/locales/%{locale}.yml", "config/locales/de.json"),
        None
    );
    assert_eq!(
        locale_of("config/locales/%{locale}.yml", "other/de.yml"),
        None
    );
    assert_eq!(
        locale_of("config/locales/%{locale}.yml", "config/locales/.yml"),
        None
    );
    assert_eq!(
        locale_of("config/locales/%{locale}.yml", "config/locales/de.yml.bak"),
        None
    );
}

#[test]
fn load_an_uncompilable_read_pattern_is_skipped() {
    assert!(locale_pattern_re("config/locales/%{locale}.yml").is_some());
    assert!(locale_pattern_re("config/locales/[%{locale}.yml").is_none());
}

#[test]
fn collection_values_use_the_ruby_inspect_form() {
    assert_eq!(Value::Str("a".into()).to_display_string(), "a");
    assert_eq!(
        Value::List(vec![Value::Nil, Value::Bool(false)]).to_display_string(),
        "[nil, false]"
    );
    assert_eq!(
        Value::Table(vec![
            ("a".into(), Value::Str("b".into())),
            ("n".into(), Value::Plain("1".into())),
        ])
        .to_display_string(),
        "{\"a\" => \"b\", \"n\" => 1}"
    );
    assert_eq!(
        Value::List(vec![Value::Table(vec![(
            "k".into(),
            Value::List(vec![Value::Str("v".into())])
        )])])
        .to_display_string(),
        "[{\"k\" => [\"v\"]}]"
    );
}

#[test]
fn as_str_is_only_for_scalars() {
    assert_eq!(Value::Str("a".into()).as_str(), Some("a"));
    assert_eq!(Value::Plain("1".into()).as_str(), Some("1"));
    assert_eq!(Value::Nil.as_str(), None);
    assert_eq!(Value::Bool(true).as_str(), None);
    assert_eq!(Value::List(Vec::new()).as_str(), None);
    assert_eq!(Value::Table(Vec::new()).as_str(), None);
}

#[test]
fn locale_list_keeps_the_base_first_even_when_absent_from_the_list() {
    assert_eq!(
        normalize_locale_list(&vec!["fr".into(), "de".into()], "en"),
        vec!["en", "de", "fr"]
    );
    assert_eq!(
        normalize_locale_list(&vec!["en".into(), "en".into(), "de".into()], "en"),
        vec!["en", "de"]
    );
}

#[test]
fn locale_path_a_multi_byte_read_pattern_still_names_the_locale() {
    assert_eq!(
        locale_of("config/переводы/%{locale}.yml", "config/переводы/ru.yml"),
        Some("ru".to_string())
    );
    assert_eq!(
        locale_of("config/переводы/%{locale}.yml", "config/x/ru.yml"),
        None
    );
}

#[test]
fn locale_path_the_read_pattern_decides_which_files_name_a_locale() {
    let files = [
        "config/locales/en.yml",
        "config/locales/es.yml",
        "config/locales/other.fr.yml",
    ];
    let names = |pattern: &str| -> Vec<String> {
        files.iter().filter_map(|f| locale_of(pattern, f)).collect()
    };
    assert_eq!(names("config/locales/%{locale}.yml"), vec!["en", "es"]);
    assert_eq!(
        names("config/locales/*%{locale}.yml"),
        vec!["en", "es", "fr"]
    );
    assert_eq!(names("config/locales/*.%{locale}.yml"), vec!["fr"]);
}

#[test]
fn locale_path_extracts_locale_from_path() {
    assert_eq!(
        locale_of(
            "config/locales/base.%{locale}.yml",
            "config/locales/base.de.yml"
        ),
        Some("de".into())
    );
    assert_eq!(
        locale_of(
            "config/locales/*.%{locale}.yml",
            "config/locales/jobs.fr.yml"
        ),
        Some("fr".into())
    );
    assert_eq!(
        locale_of("config/locales/%{locale}.yml", "config/locales/de.yml"),
        Some("de".into())
    );
    assert_eq!(
        locale_of(
            "config/locales/**/%{locale}.yml",
            "config/locales/a/b/de.yml"
        ),
        Some("de".into())
    );
    assert_eq!(
        locale_of(
            "config/locales/*/%{locale}.yml",
            "config/locales/a/b/de.yml"
        ),
        None
    );
    assert_eq!(
        locale_of(
            "config/locales/%{locale}/models.yml",
            "config/locales/de/models.yml"
        ),
        Some("de".into())
    );
}

#[test]
fn locale_path_extract_locale_rejects_what_cannot_be_a_locale() {
    assert_eq!(
        locale_of("config/locales/%{locale}.yml", "config/locales/de.json"),
        None
    );
    assert_eq!(
        locale_of("config/locales/%{locale}.yml", "other/de.yml"),
        None
    );
    assert_eq!(
        locale_of("config/locales/%{locale}.yml", "config/locales/.yml"),
        None
    );
    assert_eq!(
        locale_of("config/locales/%{locale}.yml", "config/locales/de.yml.bak"),
        None
    );
}

#[test]
fn locale_path_an_uncompilable_read_pattern_is_skipped() {
    assert!(locale_pattern_re("config/locales/%{locale}.yml").is_some());
    assert!(locale_pattern_re("config/locales/[%{locale}.yml").is_none());
}
