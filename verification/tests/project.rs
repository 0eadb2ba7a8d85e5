//! Reports over a small project.
use i18n_tasks_rs::check::{any_found, Check, RemoveUnusedJson};
use i18n_tasks_rs::commands::{
    health_checks, health_text, plan_removal, unused_for_removal,
};
use i18n_tasks_rs::config::{Config, IgnoreSpec};
use i18n_tasks_rs::data::load::{Leaf, LocaleTree, SourceFile, Value};
use i18n_tasks_rs::data::route::{can_route, route, route_filtered};
use i18n_tasks_rs::data::store::Store;
use i18n_tasks_rs::pattern::Pattern;
use i18n_tasks_rs::report::missing::MissingType;
use i18n_tasks_rs::report::normalize::{compare, plan, unified_diff, Action, NormalizeReport, PlannedFile};
use i18n_tasks_rs::report::{eq_base, interpolations, missing, unused, KeyRow, Outcome, Reason};
use i18n_tasks_rs::scan::{FileScan, Occurrence};
use i18n_tasks_rs::session::Session;
use i18n_tasks_rs::stats::{count_leaves, forest_stats};
use i18n_tasks_rs::textmap::TextMap;
use i18n_tasks_rs::used::UsedKeys;
use i18n_tasks_rs::yaml::Node;

const ROOT: &str = "/project";

fn config() -> Config {
    Config::parse(
        "",
        Ok(Some(Node::Mapping { entries: Vec::new(), line: 1 })),
        "config/i18n-tasks-rs.yml",
        ROOT,
    )
    .unwrap()
}

fn tree(locale: &str, leaves: &[(&str, &str)]) -> LocaleTree {
    let mut tree = LocaleTree::new(locale);
    for (key, value) in leaves {
        tree.insert(Leaf {
            key: key.to_string(),
            value: Value::Str(value.to_string()),
            depth: key.split('.').count() as u16,
            path: format!("{ROOT}/config/locales/{locale}.yml"),
            odd_segments: None,
        });
    }
    tree.finish();
    tree
}

fn store(trees: Vec<LocaleTree>) -> Store {
    let mut map = TextMap::new();
    let mut locales = Vec::new();
    for tree in trees {
        locales.push(tree.locale.clone());
        map.insert(tree.locale.clone(), tree);
    }
    Store {
        base_locale: "en".to_string(),
        locales,
        trees: map,
        external: TextMap::new(),
        warnings: Vec::new(),
    }
}

fn occurrence(path: &str, line: usize) -> Occurrence {
    Occurrence {
        path: path.to_string(),
        snippet: "t(key)\nmore".to_string(),
        pos: 0,
        line_pos: 0,
        line_num: line,
        raw_key: String::new(),
        candidate_keys: Vec::new(),
    }
}

fn used(keys: &[&str], patterns: &[&str], opaque: usize) -> UsedKeys {
    let scan = FileScan {
        keys: keys.iter().map(|k| (k.to_string(), occurrence("app/a.rb", 3))).collect(),
        patterns: patterns.iter().map(|k| (k.to_string(), occurrence("app/b.rb", 4))).collect(),
        opaque: (0..opaque).map(|i| occurrence("app/c.rb", i + 5)).collect(),
    };
    UsedKeys::gather(scan, 3, 1)
}

fn texts(v: &[&str]) -> Vec<String> {
    v.iter().map(|s| s.to_string()).collect()
}

fn named(rows: &[KeyRow]) -> Vec<String> {
    rows.iter().map(|r| format!("{}:{}", r.locale, r.key)).collect()
}

#[test]
fn a_used_key_without_a_value_is_missing() {
    let store = store(vec![tree("en", &[("home.title", "Home")]), tree("de", &[])]);
    let used = used(&["home.title", "home.body"], &[], 0);
    let r = missing::report(
        &config(),
        &store,
        &used,
        &texts(&["en", "de"]),
        &vec![MissingType::Used],
    );
    assert_eq!(named(&r.rows), ["en:home.body", "de:home.body", "de:home.title"]);
    assert_eq!(r.rows[0].value, None);
    assert_eq!(
        r.rows[0].reason,
        Some(Reason::Used { path: "app/a.rb".to_string(), line: 3 })
    );
    assert_eq!(r.outcome(), Outcome::Found);
    let one = missing::report(
        &config(),
        &store,
        &used,
        &texts(&["en"]),
        &vec![MissingType::Used],
    );
    assert_eq!(
        one.to_text(),
        "Missing keys (1 found)\n\
         Locale  Key        Type              Base value\n\
         -----------------------------------------------\n\
         en      home.body  used: app/a.rb:3\n"
    );
}

#[test]
fn an_interior_node_counts_as_a_value() {
    let store = store(vec![tree("en", &[("home.title", "Home")])]);
    let r = missing::report(
        &config(),
        &store,
        &used(&["home"], &[], 0),
        &texts(&["en"]),
        &vec![MissingType::Used],
    );
    assert!(r.rows.is_empty());
    assert_eq!(r.to_text(), "Missing keys: none\n");
}

#[test]
fn a_difference_is_reported_in_both_directions() {
    let store = store(vec![
        tree("en", &[("a", "A"), ("c.one", "1"), ("c.other", "2")]),
        tree("de", &[("b", "B")]),
    ]);
    let r = missing::report(
        &config(),
        &store,
        &used(&[], &[], 0),
        &texts(&["en", "de"]),
        &vec![MissingType::Diff],
    );
    assert_eq!(named(&r.rows), ["de:a", "de:c", "en:b"]);
    assert_eq!(r.rows[0].value, Some("A".to_string()));
    assert_eq!(r.rows[0].reason, Some(Reason::Diff { present_in: "en".to_string() }));
    assert_eq!(r.rows[2].reason, Some(Reason::Diff { present_in: "de".to_string() }));
}

#[test]
fn an_ignored_key_and_an_external_key_are_not_missing() {
    let mut cfg = config();
    cfg.ignore_missing = IgnoreSpec::PerLocale(vec![(texts(&["de"]), texts(&["a"]))]);
    let mut store = store(vec![tree("en", &[("a", "A"), ("b", "B")]), tree("de", &[])]);
    store.external.insert("de".to_string(), tree("de", &[("b", "B")]));
    let r = missing::report(
        &cfg,
        &store,
        &used(&[], &[], 0),
        &texts(&["en", "de"]),
        &MissingType::all(),
    );
    assert!(r.rows.is_empty(), "{:?}", named(&r.rows));
}

#[test]
fn a_plural_node_short_of_a_category_is_reported() {
    let store = store(vec![
        tree("en", &[("n.one", "1"), ("n.other", "2")]),
        tree("ru", &[("n.one", "1"), ("n.other", "2")]),
    ]);
    let r = missing::report(
        &config(),
        &store,
        &used(&[], &[], 0),
        &texts(&["en", "ru"]),
        &vec![MissingType::Plural],
    );
    assert_eq!(named(&r.rows), ["ru:n"]);
    assert_eq!(r.rows[0].reason, Some(Reason::Plural { categories: vec!["few", "many"] }));
    assert_eq!(r.rows[0].details(), "plural: missing few, many");
}

#[test]
fn exactly_the_keys_without_a_use_are_unused() {
    let mut cfg = config();
    cfg.ignore_unused = IgnoreSpec::All(texts(&["ignored.*"]));
    let mut store = store(vec![
        tree(
            "en",
            &[
                ("called", "1"),
                ("dead", "2"),
                ("external", "3"),
                ("ignored.x", "4"),
                ("people.one", "5"),
                ("people.other", "6"),
                ("state.open", "7"),
            ],
        ),
        tree("de", &[("called", "1"), ("old", "alt")]),
    ]);
    store.external.insert("en".to_string(), tree("en", &[("external", "3")]));
    let r = unused::report(
        &cfg,
        &store,
        &used(&["called", "people"], &["state.*"], 0),
        &texts(&["en", "de"]),
    );
    assert_eq!(named(&r.rows), ["en:dead", "de:old"]);
    assert!(r.removable("en", "dead"));
    assert!(!r.removable("en", "called"));
    assert!(!r.removable("de", "dead"));
    assert_eq!(
        r.to_text(),
        "Unused keys (2 found)\n\
         Locale  Key   Value\n\
         -------------------\n\
         en      dead  2\n\
         de      old   alt\n"
    );
}

#[test]
fn a_whole_plural_node_is_shown_once_and_removed_whole() {
    let store = store(vec![tree("en", &[("n.one", "1"), ("n.other", "2"), ("x", "3")])]);
    let mut r = unused::report(&config(), &store, &used(&["x"], &[], 0), &texts(&["en"]));
    assert_eq!(named(&r.rows), ["en:n"]);
    assert!(r.removable("en", "n.one") && r.removable("en", "n.other"));
    r.select_pattern(&Pattern::compile("other.*"));
    assert!(r.rows.is_empty());
    assert!(!r.has_removable());
    assert_eq!(r.outcome(), Outcome::Clean);
}

#[test]
fn a_pattern_selects_a_key_by_its_parents() {
    let store = store(vec![tree("en", &[("a.b.c", "1"), ("d", "2")])]);
    let mut r = unused::report(&config(), &store, &used(&[], &[], 0), &texts(&["en"]));
    r.select_pattern(&Pattern::compile("a.b"));
    assert_eq!(named(&r.rows), ["en:a.b.c"]);
    assert!(r.removable("en", "a.b.c") && !r.removable("en", "d"));
}

#[test]
fn calls_with_an_unknown_key_are_listed() {
    let store = store(vec![tree("en", &[])]);
    let r = unused::report(&config(), &store, &used(&[], &[], 2), &texts(&["en"]));
    assert_eq!(
        r.to_text(),
        "Unused keys: none\n\n2 translation call(s) have a key that cannot be determined \
         statically. Keys they reach cannot be verified as used. Add an `# i18n-tasks-use` \
         comment or an `ignore_unused` rule for each.\n  app/c.rb:5 t(key)\n  app/c.rb:6 t(key)\n"
    );
}

#[test]
fn a_value_that_equals_the_base_value_is_reported() {
    let mut cfg = config();
    cfg.ignore_eq_base = IgnoreSpec::All(texts(&["ok"]));
    let store = store(vec![
        tree("en", &[("a", "A"), ("b", "B"), ("ok", "OK")]),
        tree("de", &[("a", "A"), ("b", "X"), ("ok", "OK"), ("z", "A")]),
    ]);
    let r = eq_base::report(&cfg, &store, &texts(&["en", "de"]));
    assert_eq!(named(&r.rows), ["de:a"]);
    assert!(r.to_text().starts_with("Same value as en (1 found)\n"));
}

#[test]
fn interpolations_are_compared_with_the_base_locale() {
    let store = store(vec![
        tree("en", &[("a", "%{x} %{y}"), ("b", "%{x}"), ("c", "none")]),
        tree("de", &[("a", "%{y} %{x} %{x}"), ("b", "nichts"), ("c", "%%{z}")]),
    ]);
    let r = interpolations::inconsistent(&config(), &store, &texts(&["en", "de"]));
    assert_eq!(named(&r.rows), ["de:b"]);
    assert_eq!(r.rows[0].details(), "de has no variables, en has %{x}");
    assert_eq!(r.outcome(), Outcome::Found);
}

#[test]
fn a_reserved_name_is_reported_in_every_locale() {
    let store = store(vec![tree("en", &[("a", "%{scope}")]), tree("de", &[("b", "%{name}")])]);
    let r = interpolations::reserved(&store, &texts(&["en", "de"]));
    assert_eq!(named(&r.rows), ["en:a"]);
    assert_eq!(r.rows[0].details(), "scope");
}

#[test]
fn a_plan_sorts_each_file_and_keeps_every_key() {
    let store = store(vec![tree("en", &[("b", "B"), ("a.c", "C")])]);
    let locales = texts(&["en"]);
    assert!(can_route(&config(), &store, "en", false));
    let planned = plan(&config(), &store, &locales, false).unwrap();
    assert_eq!(planned.len(), 1);
    assert_eq!(planned[0].path, "/project/config/locales/en.yml");
    let body = "---\nen:\n  a:\n    c: C\n  b: B\n";
    assert_eq!(planned[0].after.as_deref(), Some(body));
    let same = compare(ROOT, &planned, &vec![Some(body.to_string())]);
    assert!(same.changes.is_empty());
    assert_eq!(same.files_routed, 1);
    assert_eq!(same.to_check_text(), "All data is normalized\n");
    assert_eq!(same.outcome(), Outcome::Clean);
    let changed = compare(ROOT, &planned, &vec![Some("---\nen:\n  b: B\n  a:\n    c: C\n".to_string())]);
    assert_eq!(
        changed.to_check_text(),
        "The following data requires normalization (1 found)\n\
         config/locales/en.yml\n\
         Run `i18n-tasks-rs normalize --write` to fix\n"
    );
    assert_eq!(
        changed.to_normalize_text(true),
        "1 file(s) to change\n  update config/locales/en.yml\n\n\
         --- a/config/locales/en.yml\n+++ b/config/locales/en.yml\n\
         @@ -1,5 +1,5 @@\n ---\n en:\n-  b: B\n   a:\n     c: C\n+  b: B\n"
    );
}

#[test]
fn a_file_is_created_updated_or_deleted() {
    let file = |path: &str, after: Option<&str>| PlannedFile {
        path: format!("{ROOT}/{path}"),
        locale: "en".to_string(),
        after: after.map(str::to_string),
    };
    let planned = vec![
        file("b.yml", Some("x\n")),
        file("a.yml", None),
        file("c.yml", Some("y\n")),
        file("d.yml", Some("same\n")),
    ];
    let current = vec![
        None,
        Some("old\n".to_string()),
        Some("z\n".to_string()),
        Some("same\n".to_string()),
    ];
    let r = compare(ROOT, &planned, &current);
    let seen: Vec<(&str, Action)> =
        r.changes.iter().map(|c| (c.display.as_str(), c.action)).collect();
    assert_eq!(
        seen,
        [("a.yml", Action::Delete), ("b.yml", Action::Create), ("c.yml", Action::Update)]
    );
    assert_eq!(r.deletions().len(), 1);
    assert_eq!(r.changes[0].before, "old\n");
    assert_eq!(r.changes[0].after, "");
}

#[test]
fn equal_texts_have_an_empty_diff() {
    assert_eq!(unified_diff("a.yml", "x\n", "x\n"), "--- a/a.yml\n+++ b/a.yml\n");
}

#[test]
fn two_locales_may_not_share_a_file() {
    let mut cfg = config();
    cfg.data.write[0].path = "config/locales/all.yml".to_string();
    let store = store(vec![tree("en", &[("a", "A")]), tree("de", &[("a", "A")])]);
    let e = plan(&cfg, &store, &texts(&["en", "de"]), true).err().unwrap();
    assert!(e.contains("is the destination for both `en` and `de`"), "{e}");
}

#[test]
fn a_locale_without_data_cannot_be_planned() {
    let store = store(vec![tree("en", &[("a", "A")])]);
    assert_eq!(
        plan(&config(), &store, &texts(&["fr"]), false).err().unwrap(),
        "locale `fr` has no data"
    );
}

#[test]
fn a_removal_drops_the_unused_keys_and_nothing_else() {
    let store = store(vec![tree("en", &[("b", "B"), ("a.c", "C"), ("a.d", "D")])]);
    let en = texts(&["en"]);
    let unused = unused_for_removal(&config(), &store, &used(&["b", "a.c"], &[], 0), &en, None);
    let removal =
        plan_removal(config(), &store, &en, unused, false).unwrap().expect("a.d is unused");
    assert_eq!(removal.planned[0].after.as_deref(), Some("---\nen:\n  a:\n    c: C\n  b: B\n"));
    assert_eq!(named(&removal.unused.rows), ["en:a.d"]);
}

#[test]
fn a_removal_can_keep_the_order_of_the_file() {
    let store = store(vec![tree("en", &[("b", "B"), ("a.c", "C"), ("a.d", "D")])]);
    let used = used(&["b", "a.c"], &[], 0);
    let en = texts(&["en"]);
    let unused = unused_for_removal(&config(), &store, &used, &en, None);
    let removal = plan_removal(config(), &store, &en, unused, true).unwrap().unwrap();
    assert_eq!(removal.planned[0].after.as_deref(), Some("---\nen:\n  b: B\n  a:\n    c: C\n"));
    let other = unused_for_removal(&config(), &store, &used, &en, Some("zzz"));
    assert!(other.rows.is_empty());
    assert!(plan_removal(config(), &store, &en, other, true).unwrap().is_none());
}

#[test]
fn the_envelope_of_a_removal_says_what_was_written() {
    let none = RemoveUnusedJson::nothing_to_remove();
    assert_eq!(none.files_routed(), 0);
    let store = store(vec![tree("en", &[("a", "A"), ("b", "B")])]);
    let r = unused::report(&config(), &store, &used(&["a"], &[], 0), &texts(&["en"]));
    let n = compare(
        ROOT,
        &vec![PlannedFile {
            path: "/project/x.yml".to_string(),
            locale: "en".to_string(),
            after: None,
        }],
        &vec![None],
    );
    let planned = RemoveUnusedJson::planned(&r, &n);
    assert_eq!(planned.files_routed(), n.files_routed);
    assert!(!planned.written);
    assert!(planned.written().written);
}

#[test]
fn statistics_count_leaves_segments_and_characters() {
    let store = store(vec![tree("en", &[("a.b", "four"), ("c", "ü")]), tree("de", &[("c", "x")])]);
    let locales = texts(&["en", "de"]);
    let t = count_leaves(&store, &locales);
    assert_eq!((t.keys, t.segments, t.chars), (3, 4, 6));
    let s = forest_stats(&store, &locales, "1.3".to_string());
    assert_eq!(
        s.to_text(),
        "3 keys in 2 locales (en, de), 1 keys per locale, 1.3 segments per key, \
         2 characters per value"
    );
    let empty = forest_stats(&store, &vec![], "9.9".to_string());
    assert_eq!((empty.key_count, empty.locale_count), (0, 1));
    assert_eq!(empty.key_segments_avg, "0.0");
}

#[test]
fn a_session_knows_its_locales() {
    let store = store(vec![tree("en", &[]), tree("de", &[])]);
    let s = Session::with_locales(config(), store, &texts(&["de"]), true).unwrap();
    assert_eq!(s.locales, ["de"]);
    assert!(s.json);
}

#[test]
fn a_check_is_named_after_its_command() {
    let cfg = config();
    let mut store = store(vec![]);
    store.locales = texts(&["en", "de"]);
    let locales = texts(&["en", "de"]);
    let checks = vec![
        Check::Missing(missing::MissingReport { rows: Vec::new() }),
        Check::Unused(unused::UnusedReport::empty()),
        Check::EqBase(eq_base::report(&cfg, &store, &locales)),
        Check::ConsistentInterpolations(interpolations::inconsistent(&cfg, &store, &locales)),
        Check::ReservedInterpolations(interpolations::reserved(&store, &locales)),
        Check::Normalized(NormalizeReport { changes: Vec::new(), files_routed: 0 }),
    ];
    let names: Vec<&str> = checks.iter().map(Check::name).collect();
    assert_eq!(
        names,
        [
            "missing",
            "unused",
            "eq_base",
            "check_consistent_interpolations",
            "check_reserved_interpolations",
            "check_normalized",
        ]
    );
    assert!(!any_found(&checks));
    assert!(checks.iter().all(|c| c.outcome() == Outcome::Clean));
}

#[test]
fn health_runs_every_check_and_prints_each() {
    let store = store(vec![tree("en", &[("a", "A")]), tree("de", &[("a", "B")])]);
    let checks = health_checks(
        &config(),
        &store,
        &used(&["a"], &[], 0),
        &texts(&["en", "de"]),
        compare(ROOT, &vec![], &vec![]),
    );
    assert!(!any_found(&checks));
    assert_eq!(
        health_text("stats", &checks),
        "stats\n\nMissing keys: none\n\nUnused keys: none\n\nInconsistent interpolations: \
         none\n\nReserved interpolations: none\n\nAll data is normalized\n"
    );
    let found = health_checks(
        &config(),
        &store,
        &used(&[], &[], 0),
        &texts(&["en", "de"]),
        compare(ROOT, &vec![], &vec![]),
    );
    assert!(any_found(&found));
    assert_eq!(found[1].outcome(), Outcome::Found);
}

fn two_files() -> Store {
    let mut tree = LocaleTree::new("en");
    for (key, file) in [("a.x", "one"), ("b.y", "two"), ("a.z", "one")] {
        tree.insert(Leaf {
            key: key.to_string(),
            value: Value::Nil,
            depth: 2,
            path: format!("{ROOT}/config/locales/{file}.en.yml"),
            odd_segments: None,
        });
    }
    tree.finish();
    store(vec![tree])
}

#[test]
fn an_existing_key_stays_in_its_file() {
    let routed = route(&config(), &two_files(), "en", false).unwrap();
    let seen: Vec<(String, Vec<String>)> =
        routed.into_iter().map(|d| (d.path, d.keys)).collect();
    assert_eq!(
        seen,
        [
            ("/project/config/locales/one.en.yml".to_string(), texts(&["a.x", "a.z"])),
            ("/project/config/locales/two.en.yml".to_string(), texts(&["b.y"])),
        ]
    );
}

#[test]
fn every_key_goes_through_the_patterns_when_asked() {
    let routed = route(&config(), &two_files(), "en", true).unwrap();
    assert_eq!(routed.len(), 1);
    assert_eq!(routed[0].path, "/project/config/locales/en.yml");
    assert_eq!(routed[0].keys.len(), 3);
}

#[test]
fn a_skipped_key_goes_nowhere() {
    let mut skip = TextMap::new();
    skip.insert("b.y".to_string(), ());
    let routed = route_filtered(&config(), &two_files(), "en", false, &skip).unwrap();
    assert_eq!(routed.len(), 1);
    assert_eq!(routed[0].keys, ["a.x", "a.z"]);
}

#[test]
fn a_rule_that_hides_nothing_changes_no_report() {
    let store = store(vec![tree("en", &[("a", "A"), ("b", "B")]), tree("de", &[("a", "A")])]);
    let used = used(&["a", "b", "c"], &[], 0);
    let locales = texts(&["en", "de"]);
    let bare = config();
    let mut ruled = config();
    ruled.ignore = texts(&["stale.*"]);
    let text = |cfg: &Config| {
        [
            missing::report(cfg, &store, &used, &locales, &MissingType::all()).to_text(),
            unused::report(cfg, &store, &used, &locales).to_text(),
            eq_base::report(cfg, &store, &locales).to_text(),
            interpolations::inconsistent(cfg, &store, &locales).to_text(),
        ]
    };
    assert_eq!(text(&bare), text(&ruled));
    ruled.ignore = texts(&["a"]);
    assert_ne!(text(&bare), text(&ruled));
}

// ------------------------------------------------------------------- the loader

const LOCALES: [&str; 4] = ["en", "de", "fr", "it"];

fn scalar(value: &str, line: usize) -> Node {
    Node::Scalar { value: value.to_string(), plain: true, line }
}

fn source(locale: &str, root: Node) -> Vec<SourceFile> {
    vec![SourceFile { path: format!("/project/config/locales/{locale}.yml"), root: Ok(Some(root)) }]
}

fn body(locale: &str, mut entries: Vec<(Node, Node)>) -> Node {
    entries.insert(0, (scalar("a", 2), scalar("A", 2)));
    let tree = Node::Mapping { entries, line: 2 };
    Node::Mapping { entries: vec![(scalar(locale, 1), tree)], line: 1 }
}

fn load(files: Vec<Vec<SourceFile>>) -> Result<Store, String> {
    let none: Vec<Vec<SourceFile>> = LOCALES.iter().map(|_| Vec::new()).collect();
    Store::load("en", texts(&LOCALES), &files, &none)
}

#[test]
fn warnings_stay_in_locale_order() {
    let files = LOCALES
        .iter()
        .map(|l| source(l, body(l, vec![(scalar("~", 3), scalar("dropped", 3))])))
        .collect();
    let store = load(files).unwrap();
    let named: Vec<&str> = store
        .warnings
        .iter()
        .map(|w| {
            assert!(w.contains("nil key"), "{w}");
            LOCALES
                .into_iter()
                .find(|l| w.contains(&format!("/{l}.yml")))
                .expect("a warning names the file it comes from")
        })
        .collect();
    assert_eq!(named, store.locales);
}

#[test]
fn the_first_broken_locale_in_order_names_the_error() {
    for _ in 0..20 {
        let files = LOCALES
            .iter()
            .map(|l| {
                if *l == "de" || *l == "it" {
                    source(l, Node::List { items: vec![scalar("not a mapping", 1)], line: 1 })
                } else {
                    source(l, body(l, vec![]))
                }
            })
            .collect();
        let err = load(files).err().unwrap();
        assert!(err.contains("de.yml"), "{err}");
    }
}

#[test]
fn a_loaded_leaf_is_found_under_its_key() {
    let files = LOCALES.iter().map(|l| source(l, body(l, vec![]))).collect();
    let store = load(files).unwrap();
    assert!(store.key_value("de", "a"));
    assert!(!store.key_value("de", "b"));
    assert_eq!(
        store.tree("de").unwrap().get("a").unwrap().value.to_display_string(),
        "A"
    );
}

#[test]
fn a_file_of_two_locales_is_not_rewritten() {
    let both = |line: usize| Node::Mapping {
        entries: vec![
            (scalar("en", line), Node::Mapping { entries: vec![(scalar("a", 2), scalar("A", 2))], line: 2 }),
            (scalar("de", 3), Node::Mapping { entries: vec![(scalar("a", 4), scalar("A", 4))], line: 4 }),
        ],
        line,
    };
    let file = || SourceFile {
        path: "/project/config/locales/en.yml".to_string(),
        root: Ok(Some(both(1))),
    };
    let store =
        Store::load("en", texts(&["en"]), &vec![vec![file()]], &vec![vec![]]).ok().unwrap();
    let e = plan(&config(), &store, &texts(&["en"]), false).err().unwrap();
    assert!(e.contains("holds the locale(s) de as well as `en`"), "{e}");
}
