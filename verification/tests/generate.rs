//! The config that `init-config` generates.
use i18n_tasks_rs::data::load::SourceFile;
use i18n_tasks_rs::data::store::Store;
use i18n_tasks_rs::init::detect::{
    detect, exclude_candidates, is_source_ext, locale_dir_candidates, skips_dir, Project,
    ProjectSource,
};
use i18n_tasks_rs::init::layout::RubyFile;
use i18n_tasks_rs::init::render::{to_text, wrap_comment};
use i18n_tasks_rs::init::verify::verify;
use i18n_tasks_rs::init::{generate, INIT_TARGET};
use i18n_tasks_rs::yaml::Node;

fn texts(v: &[&str]) -> Vec<String> {
    v.iter().map(|s| s.to_string()).collect()
}

fn project(locale_files: &[&str]) -> Project {
    let mut lists: Vec<Vec<String>> = locale_dir_candidates().iter().map(|_| vec![]).collect();
    let at = locale_dir_candidates().iter().position(|d| d == "config/locales").unwrap();
    lists[at] = texts(locale_files);
    Project {
        locale_files: lists,
        ruby: vec![RubyFile {
            path: "config/application.rb".to_string(),
            source: "class A\n  config.i18n.default_locale = :de\nend\n".to_string(),
        }],
        directories: texts(&["app", "lib"]),
        sources: vec![ProjectSource {
            path: "app/components/card/card_component.rb".to_string(),
            bytes: b"t('.title')".to_vec(),
        }],
        gem_config: None,
    }
}

fn scalar(s: &str) -> Node {
    Node::Scalar { value: s.to_string(), plain: true, line: 1 }
}

fn store() -> Store {
    let tree = Node::Mapping { entries: vec![(scalar("a"), scalar("A"))], line: 2 };
    let root = Node::Mapping { entries: vec![(scalar("de"), tree)], line: 1 };
    let file = SourceFile {
        path: "/project/config/locales/de.yml".to_string(),
        root: Ok(Some(root)),
    };
    Store::load("de", texts(&["de"]), &vec![vec![file]], &vec![vec![]]).unwrap_or_else(|e| panic!("{e}"))
}

#[test]
fn a_project_is_detected_from_its_files() {
    let d = detect(&project(&["config/locales/de.yml", "config/locales/en.yml"]));
    assert_eq!(d.locale_dir.as_deref(), Some("config/locales"));
    assert_eq!(d.files_seen, 2);
    assert_eq!(d.read, ["config/locales/%{locale}.yml"]);
    assert_eq!(d.write, "config/locales/%{locale}.yml");
    assert_eq!(d.locales, ["de", "en"]);
    assert_eq!(d.base_locale, "de");
    assert_eq!(d.base_locale_from.as_deref(), Some("config/application.rb:2"));
    assert!(d.unmatched.is_empty());
    assert_eq!(d.relative_roots_detected, ["app/components"]);
}

#[test]
fn a_file_that_no_pattern_reads_is_noted() {
    let d = detect(&project(&["config/locales/de.yml", "config/locales/shared/defaults.yml"]));
    assert_eq!(d.unmatched, ["config/locales/shared/defaults.yml"]);
    assert!(!d.notes.is_empty());
}

#[test]
fn a_generated_config_says_what_was_read_back() {
    let d = detect(&project(&["config/locales/de.yml"]));
    let g = generate(d, verify(&Ok(store())));
    assert!(g.output.contains("\nbase_locale: de\n"), "{}", g.output);
    assert!(g.output.contains("    - config/locales/%{locale}.yml\n"), "{}", g.output);
    assert!(
        g.output.contains("#   read back: 1 key(s) in 1 locale(s) from 1 file(s)\n"),
        "{}",
        g.output
    );
    let text = to_text(&g, INIT_TARGET, true);
    assert!(text.contains(INIT_TARGET), "{text}");
}

#[test]
fn a_config_that_does_not_load_is_offered_with_the_reason() {
    let d = detect(&project(&["config/locales/de.yml"]));
    let g = generate(d, verify(&Err("it broke".to_string())));
    assert_eq!(g.verified.error.as_deref(), Some("it broke"));
    assert!(g.needs_attention());
    assert!(g.output.contains("it broke"), "{}", g.output);
}

#[test]
fn notes_are_wrapped_into_comment_lines() {
    assert_eq!(wrap_comment("one two"), "#   one two\n");
    let long = "word ".repeat(40);
    let out = wrap_comment(&long);
    assert!(out.lines().count() > 1);
    assert!(out.lines().all(|l| l.starts_with("#   ") && l.len() < 80), "{out}");
    assert_eq!(wrap_comment(""), "#\n");
}

#[test]
fn some_directories_are_never_walked() {
    assert!(skips_dir("node_modules"));
    assert!(skips_dir(".git"));
    assert!(!skips_dir("app"));
    assert!(is_source_ext("rb") && !is_source_ext("png"));
    assert!(!exclude_candidates().is_empty());
}
