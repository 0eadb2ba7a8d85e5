//! How configs are read, routed by and migrated.
use i18n_tasks_rs::clean_config;
use i18n_tasks_rs::config::{interpolate_locale, Config, IgnoreType, Router};
use i18n_tasks_rs::data::emit::{emit_locale, Tree};
use i18n_tasks_rs::data::load::{to_value, Leaf, LocaleTree, Value};
use i18n_tasks_rs::data::route::{origin_paths, replace_locale, substitute_captures, PatternRouter};
use i18n_tasks_rs::data::store::Store;
use i18n_tasks_rs::init;
use i18n_tasks_rs::init::detect::Detected;
use i18n_tasks_rs::migrate::erb::strip_erb;
use i18n_tasks_rs::migrate::render::to_text;
use i18n_tasks_rs::migrate::{find_gem_config, migrate, Migration, MIGRATION_TARGET};
use i18n_tasks_rs::pattern::Pattern;
use i18n_tasks_rs::scan::FileScan;
use i18n_tasks_rs::textmap::TextMap;
use i18n_tasks_rs::used::UsedKeys;
use i18n_tasks_rs::yaml::Node;

fn read(src: &str) -> Result<Config, String> {
    Config::parse(src, yaml(src, "config/i18n-tasks.yml"), "config/i18n-tasks.yml", ".")
}

#[test]
fn a_multi_byte_path_survives_locale_interpolation() {
    assert_eq!(
        interpolate_locale("config/переводы/%{locale}.yml", "ru"),
        "config/переводы/ru.yml"
    );
    assert_eq!(interpolate_locale("100%% ü %{locale}", "de"), "100% ü de");
}

fn parse(src: &str) -> Result<Config, String> {
    Config::parse(src, yaml(src, "config/i18n-tasks.yml"), "config/i18n-tasks.yml", ".")
}

#[test]
fn rejects_erb() {
    let e = parse("<% x %>\nbase_locale: de\n").unwrap_err();
    assert!(e.contains("ERB is not supported"));
}

#[test]
fn rejects_unknown_keys() {
    let e = parse("base_locale: de\ntranslation:\n  backend: openai\n").unwrap_err();
    assert!(e.contains("unknown config key `translation`"), "{e}");
    let e = parse("search:\n  prism: rails\n").unwrap_err();
    assert!(e.contains("unknown config key `search.prism`"), "{e}");
}

#[test]
fn reads_a_translated_real_world_config() {
    let cfg = parse(
        "base_locale: de\n\
         locales: [de, en, fr]\n\
         data:\n\
         \x20 read:\n\
         \x20   - config/locales/base.%{locale}.yml\n\
         \x20   - config/locales/*.%{locale}.yml\n\
         \x20 write:\n\
         \x20   - [\"{activerecord, views}.*\", 'config/locales/\\1.%{locale}.yml']\n\
         \x20   - config/locales/base.%{locale}.yml\n\
         search:\n\
         \x20 paths: [app/]\n\
         \x20 exclude: [app/webpack]\n\
         \x20 relative_roots: [app/controllers, app/forms, app/presenters]\n\
         ignore_unused:\n\
         \x20 - \"devise.*\"\n",
    )
    .unwrap();
    assert_eq!(cfg.base_locale, "de");
    assert_eq!(
        cfg.locales.as_deref(),
        Some(&["de".into(), "en".into(), "fr".into()][..])
    );
    assert_eq!(cfg.data.read.len(), 2);
    assert_eq!(cfg.data.write.len(), 2);
    assert_eq!(
        cfg.data.write[0].pattern.as_deref(),
        Some("{activerecord, views}.*")
    );
    assert_eq!(cfg.data.write[0].path, "config/locales/\\1.%{locale}.yml");
    assert_eq!(cfg.data.write[1].pattern, None);
    assert!(cfg.search.relative_roots.contains(&"app/forms".to_string()));
    assert_eq!(cfg.digest.len(), 16);
}

#[test]
fn global_ignore_merges_into_every_type() {
    let cfg = parse("ignore: [\"a.*\"]\nignore_unused: [\"b.*\"]\n").unwrap();
    let p = cfg.ignore_patterns(IgnoreType::Unused, Some("en"));
    assert!(p.is_match("a.x"));
    assert!(p.is_match("b.x"));
    let p = cfg.ignore_patterns(IgnoreType::Missing, Some("en"));
    assert!(p.is_match("a.x"));
    assert!(!p.is_match("b.x"));
}

#[test]
fn per_locale_ignore_hash() {
    let cfg =
        parse("ignore_missing:\n  all: [\"a.*\"]\n  \"fr,es\": [\"b.*\"]\n  de: [\"c.*\"]\n")
            .unwrap();
    let fr = cfg.ignore_patterns(IgnoreType::Missing, Some("fr"));
    assert!(fr.is_match("a.x") && fr.is_match("b.x") && !fr.is_match("c.x"));
    let de = cfg.ignore_patterns(IgnoreType::Missing, Some("de"));
    assert!(de.is_match("a.x") && !de.is_match("b.x") && de.is_match("c.x"));
}

#[test]
fn every_ignore_type_resolves() {
    let cfg = parse(
        "ignore: [\"g.*\"]\n\
         ignore_missing: [\"m.*\"]\n\
         ignore_unused: [\"u.*\"]\n\
         ignore_eq_base: [\"e.*\"]\n\
         ignore_inconsistent_interpolations: [\"i.*\"]\n",
    )
    .unwrap();
    for (ty, own) in [
        (IgnoreType::Missing, "m.x"),
        (IgnoreType::Unused, "u.x"),
        (IgnoreType::EqBase, "e.x"),
        (IgnoreType::InconsistentInterpolations, "i.x"),
    ] {
        let p = cfg.ignore_patterns(ty, None);
        assert!(p.is_match(own), "{own}");
        assert!(p.is_match("g.x"));
    }
}

#[test]
fn a_scalar_stands_in_for_a_list() {
    let cfg = parse(
        "data:\n\
         \x20 read: config/locales/%{locale}.yml\n\
         \x20 write: config/locales/%{locale}.yml\n\
         \x20 external: config/ext/%{locale}.yml\n\
         search:\n\
         \x20 paths: app/\n\
         \x20 relative_exclude_method_name_paths: app/views\n\
         ignore_missing: \"a.*\"\n",
    )
    .unwrap();
    assert_eq!(cfg.data.read, vec!["config/locales/%{locale}.yml"]);
    assert_eq!(cfg.data.write.len(), 1);
    assert_eq!(cfg.data.write[0].pattern, None);
    assert_eq!(cfg.data.external, vec!["config/ext/%{locale}.yml"]);
    assert_eq!(cfg.search.paths, vec!["app/"]);
    assert_eq!(
        cfg.search.relative_exclude_method_name_paths,
        vec!["app/views"]
    );
    assert!(
        cfg.ignore_patterns(IgnoreType::Missing, Some("en"))
            .is_match("a.x")
    );
}

#[test]
fn both_routers_are_accepted_and_anything_else_is_an_error() {
    assert_eq!(
        parse("data:\n  router: conservative_router\n")
            .unwrap()
            .data
            .router,
        Router::Conservative
    );
    assert_eq!(
        parse("data:\n  router: pattern_router\n")
            .unwrap()
            .data
            .router,
        Router::Pattern
    );
    let e = parse("data:\n  router: isolating_router\n").unwrap_err();
    assert!(e.contains("unknown router `isolating_router`"), "{e}");
    let e = parse("data:\n  router:\n    a: b\n").unwrap_err();
    assert!(e.contains("unknown router"), "{e}");
}

#[test]
fn keep_order_is_read_from_every_truthy_spelling() {
    for spelling in ["true", "yes", "on"] {
        let cfg = parse(&format!("data:\n  keep_order: {spelling}\n")).unwrap();
        assert!(cfg.data.keep_order, "{spelling}");
    }
    assert!(
        !parse("data:\n  keep_order: false\n")
            .unwrap()
            .data
            .keep_order
    );
    assert!(!parse("base_locale: en\n").unwrap().data.keep_order);
}

#[test]
fn rejects_unknown_nested_keys() {
    let e = parse("data:\n  adapter: json\n").unwrap_err();
    assert!(e.contains("unknown config key `data.adapter`"), "{e}");
    let e = parse("search:\n  scanners: []\n").unwrap_err();
    assert!(e.contains("unknown config key `search.scanners`"), "{e}");
}

#[test]
fn rejects_the_wrong_shape_with_the_key_in_the_message() {
    let e = parse("search:\n  paths:\n    a: b\n").unwrap_err();
    assert!(e.contains("search.paths"), "{e}");
    assert!(e.contains("expected a string or a list"), "{e}");
    let e = parse("search:\n  paths:\n    - [a]\n").unwrap_err();
    assert!(e.contains("expected a string"), "{e}");
    let e = parse("data: config/locales\n").unwrap_err();
    assert!(e.contains("must be a mapping"), "{e}");
    let e = parse("search: app/\n").unwrap_err();
    assert!(e.contains("must be a mapping"), "{e}");
}

#[test]
fn rejects_a_malformed_write_rule() {
    let e = parse("data:\n  write:\n    a: b\n").unwrap_err();
    assert!(e.contains("expected a string or a list"), "{e}");
    let e = parse("data:\n  write:\n    - [a, b, c]\n").unwrap_err();
    assert!(
        e.contains("must be a path or a [pattern, path] pair"),
        "{e}"
    );
    let e = parse("data:\n  write:\n    - [[a], b]\n").unwrap_err();
    assert!(e.contains("pattern must be a string"), "{e}");
    let e = parse("data:\n  write:\n    - [a, [b]]\n").unwrap_err();
    assert!(e.contains("path must be a string"), "{e}");
}

#[test]
fn locale_interpolation() {
    assert_eq!(
        interpolate_locale("config/locales/%{locale}.yml", "de"),
        "config/locales/de.yml"
    );
    assert_eq!(interpolate_locale("a%%b%{locale}", "de"), "a%bde");
}

#[test]
fn replaces_the_locale_part_of_a_path() {
    assert_eq!(
        replace_locale("config/locales/base.de.yml", "de", "en"),
        "config/locales/base.en.yml"
    );
    assert_eq!(
        replace_locale("config/locales/de/models.yml", "de", "fr"),
        "config/locales/fr/models.yml"
    );
    assert_eq!(
        replace_locale("config/locales/decor.de.yml", "de", "en"),
        "config/locales/decor.en.yml"
    );
    assert_eq!(
        replace_locale("config/locales/all.yml", "de", "en"),
        "config/locales/all.yml"
    );
}

#[test]
fn a_multi_byte_path_survives_both_rewrites() {
    assert_eq!(
        replace_locale("config/переводы/de/a.yml", "de", "en"),
        "config/переводы/en/a.yml"
    );
    let pattern = Pattern::compile("{ü,x}.*");
    let caps = pattern.captures("ü.key").expect("the key matches");
    assert_eq!(
        substitute_captures("config/переводы/\\1.yml", "ü.key", &caps),
        "config/переводы/ü.yml"
    );
}

#[test]
fn replace_locale_matches_the_gem_spec() {
    assert_eq!(replace_locale("es.yml", "es", "fr"), "fr.yml");
    assert_eq!(replace_locale("scope.es.yml", "es", "fr"), "scope.fr.yml");
    assert_eq!(replace_locale("path/es.yml", "es", "fr"), "path/fr.yml");
    assert_eq!(
        replace_locale("path/scope.es.yml", "es", "fr"),
        "path/scope.fr.yml"
    );
}

#[test]
fn replace_locale_needs_a_boundary_on_both_sides() {
    assert_eq!(replace_locale("a-de.yml", "de", "en"), "a-en.yml");
    assert_eq!(replace_locale("locales/de", "de", "en"), "locales/de");
    assert_eq!(replace_locale("de_CH/a.yml", "de", "en"), "de_CH/a.yml");
    assert_eq!(replace_locale("de/de.yml", "de", "en"), "en/en.yml");
    assert_eq!(replace_locale("a/b.yml", "", "en"), "a/b.yml");
}

#[test]
fn origin_paths_of_an_unknown_locale_are_empty() {
    let cfg = alternation_router();
    let store = Store {
        base_locale: cfg.base_locale.clone(),
        locales: Vec::new(),
        trees: TextMap::new(),
        external: TextMap::new(),
        warnings: Vec::new(),
    };
    assert!(origin_paths(&store, "de").is_empty());
}

#[test]
fn substitutes_numbered_captures() {
    let p = Pattern::compile("{activerecord, views}.*");
    let key = "views.home.title";
    let caps = p.captures(key).unwrap();
    assert_eq!(
        substitute_captures("config/locales/\\1.de.yml", key, &caps),
        "config/locales/views.de.yml"
    );
}

fn alternation_router() -> Config {
    read("base_locale: de\n\
         locales: [de, en, fr]\n\
         data:\n\
         \x20 write:\n\
         \x20   - [\"{about, activerecord, views}.*\", 'config/locales/\\1.%{locale}.yml']\n\
         \x20   - config/locales/base.%{locale}.yml\n")
    .unwrap()
}

#[test]
fn pattern_router_routes_by_key() {
    let cfg = alternation_router();
    let r = PatternRouter::new(&cfg);
    assert_eq!(
        r.route_key("de", "activerecord.models.user").unwrap(),
        "config/locales/activerecord.de.yml"
    );
    assert_eq!(
        r.route_key("fr", "about.team.title").unwrap(),
        "config/locales/about.fr.yml"
    );
}

#[test]
fn pattern_router_falls_through_to_the_catch_all() {
    let cfg = alternation_router();
    let r = PatternRouter::new(&cfg);
    assert_eq!(
        r.route_key("de", "some.other.key").unwrap(),
        "config/locales/base.de.yml"
    );
}

#[test]
fn pattern_router_reports_an_unroutable_key() {
    let cfg = read("data:\n  write:\n    - [\"only.*\", 'config/locales/only.%{locale}.yml']\n")
    .unwrap();
    let e = PatternRouter::new(&cfg)
        .route_key("en", "elsewhere.key")
        .unwrap_err();
    assert!(e.contains("cannot route key `elsewhere.key`"), "{e}");
}

fn run(src: &str) -> Migration {
    migrate(
        src,
        "config/i18n-tasks.yml.erb",
        MIGRATION_TARGET,
        |s| yaml(&s, "config/i18n-tasks.yml.erb"),
    )
    .expect("migration succeeds")
}

#[test]
fn migrate_drops_the_erb_prelude_and_the_unsupported_sections() {
    let m = run("<% require 'lib/scanner' %>\n\
                 base_locale: de\n\
                 internal_locale: ru\n\
                 data:\n\
                 \x20 read:\n\
                 \x20   - config/locales/%{locale}.yml\n\
                 \x20 yaml:\n\
                 \x20   write:\n\
                 \x20     line_width: -1\n\
                 search:\n\
                 \x20 prism: \"rails\"\n\
                 \x20 strict: true\n\
                 \x20 paths:\n\
                 \x20   - app/\n\
                 translation:\n\
                 \x20 backend: openai\n");
    assert_eq!(m.kept, ["base_locale", "data", "search"]);
    assert_eq!(m.erb_lines, [1]);
    assert!(m.manual.is_empty());
    let dropped: Vec<&str> = m.dropped.iter().map(|d| d.key.as_str()).collect();
    assert_eq!(
        dropped,
        [
            "internal_locale",
            "data.yaml",
            "search.prism",
            "search.strict",
            "translation"
        ]
    );
    assert!(!m.output.contains("line_width"), "{}", m.output);
    assert!(!m.output.contains("openai"), "{}", m.output);
    assert!(m.output.contains("- config/locales/%{locale}.yml"));
    assert!(m.output.contains("- app/"));
}

#[test]
fn migrate_keeps_the_comments_above_a_kept_key() {
    let m = run("base_locale: de\n\
                 \n\
                 # Rendered from a status enum.\n\
                 ignore_unused:\n\
                 \x20 - \"jobs.status.*\" # one per enum value\n");
    assert!(m.output.contains("# Rendered from a status enum."));
    assert!(m.output.contains("# one per enum value"));
}

#[test]
fn migrate_comments_above_a_dropped_key_leave_with_it() {
    let m = run("base_locale: de\n\
                 \n\
                 ## Translation Services\n\
                 translation:\n\
                 \x20 backend: openai\n\
                 \n\
                 ignore: [\"a.*\"]\n");
    assert!(!m.output.contains("Translation Services"), "{}", m.output);
    assert!(m.output.contains("ignore: [\"a.*\"]"));
}

#[test]
fn migrate_a_computed_value_is_reported_not_guessed() {
    let m = run("base_locale: de\n\
                 data:\n\
                 \x20 external:\n\
                 \x20   - \"<%= gem_path %>/locales/%{locale}.yml\"\n\
                 \x20 read:\n\
                 \x20   - config/locales/%{locale}.yml\n");
    assert!(m.needs_attention());
    assert_eq!(m.manual.len(), 1);
    assert_eq!(m.manual[0].line, 4);
    assert!(m.manual[0].text.contains("gem_path"));
    assert!(m.output.contains("NEEDS ATTENTION"));
    assert!(m.output.contains("[ERB]"), "{}", m.output);
    let cfg =
        Config::parse(&m.output, yaml(&m.output, MIGRATION_TARGET), MIGRATION_TARGET, ".").unwrap();
    assert!(cfg.data.external.is_empty());
    assert_eq!(cfg.data.read, ["config/locales/%{locale}.yml"]);
}

#[test]
fn migrate_a_key_with_no_value_is_dropped() {
    let m = run("base_locale: de\n\
                 data:\n\
                 \x20 read:\n\
                 \x20   - config/locales/%{locale}.yml\n\
                 \x20 external:\n\
                 \x20 ## Example:\n\
                 \x20 # - vendor/locales/%{locale}.yml\n");
    assert!(m.dropped.iter().any(|d| d.key == "data.external"));
    let cfg =
        Config::parse(&m.output, yaml(&m.output, MIGRATION_TARGET), MIGRATION_TARGET, ".").unwrap();
    assert!(cfg.data.external.is_empty());
    assert!(!m.output.contains("vendor/locales"), "{}", m.output);
}

#[test]
fn migrate_a_section_whose_every_child_is_dropped_goes_too() {
    let m = run("base_locale: de\nsearch:\n  scanners: [A]\n  strict: true\n");
    assert_eq!(m.kept, ["base_locale"]);
    assert!(m.dropped.iter().any(|d| d.key == "search"));
    assert!(!m.output.contains("search:"), "{}", m.output);
}

#[test]
fn migrate_an_unknown_router_falls_back_to_the_default() {
    let m = run("base_locale: de\ndata:\n  router: isolating_router\n  keep_order: true\n");
    let d = m.dropped.iter().find(|d| d.key == "data.router").unwrap();
    assert!(d.reason.contains("isolating_router"), "{}", d.reason);
    assert!(m.output.contains("keep_order: true"));
}

#[test]
fn migrate_a_missing_base_locale_is_written_out() {
    let m = run("locales: [de, en]\n");
    assert!(m.base_locale_defaulted);
    assert!(m.output.contains("base_locale: en"));
    let cfg =
        Config::parse(&m.output, yaml(&m.output, MIGRATION_TARGET), MIGRATION_TARGET, ".").unwrap();
    assert_eq!(cfg.base_locale, "en");
}

#[test]
fn migrate_per_locale_ignore_hashes_survive() {
    let m = run("base_locale: de\n\
                 ignore_missing:\n\
                 \x20 all:\n\
                 \x20   - \"a.*\"\n\
                 \x20 \"fr,es\":\n\
                 \x20   - \"b.*\"\n");
    let cfg =
        Config::parse(&m.output, yaml(&m.output, MIGRATION_TARGET), MIGRATION_TARGET, ".").unwrap();
    let fr = cfg.ignore_patterns(IgnoreType::Missing, Some("fr"));
    assert!(fr.is_match("a.x") && fr.is_match("b.x"));
    let de = cfg.ignore_patterns(IgnoreType::Missing, Some("de"));
    assert!(de.is_match("a.x") && !de.is_match("b.x"));
}

#[test]
fn migrate_a_multi_line_erb_block_is_removed_whole() {
    let m = run("<% I18n::Tasks.add_scanner 'X',\n\
                 \x20     only: %w(*.slim) %>\n\
                 base_locale: de\n");
    assert_eq!(m.erb_lines, [1, 2]);
    assert!(m.manual.is_empty());
    assert!(m.output.contains("base_locale: de"));
}

#[test]
fn migrate_erb_inside_a_comment_is_removed() {
    let m = run("base_locale: de\n# <%# I18n::Tasks.add_scanner 'X' %>\nignore: [\"a.*\"]\n");
    assert!(!m.output.contains("<%"), "{}", m.output);
    assert!(m.output.contains("ignore: [\"a.*\"]"));
}

#[test]
fn migrate_a_flow_style_section_is_refused_with_advice() {
    let e = migrate(
        "base_locale: de\nsearch: {paths: [app/], strict: true}\n",
        "config/i18n-tasks.yml",
        MIGRATION_TARGET,
        |s| yaml(&s, "config/i18n-tasks.yml"),
    )
    .unwrap_err();
    assert!(e.contains("flow style"), "{e}");
}

#[test]
fn migrate_every_dropped_nested_setting_names_its_reason() {
    let m = run("base_locale: de\n\
         data:\n\
         \x20 read:\n\
         \x20   - config/locales/%{locale}.yml\n\
         \x20 adapter: json\n\
         \x20 json:\n\
         \x20   write:\n\
         \x20     indent: 2\n\
         \x20 something_else: 1\n\
         search:\n\
         \x20 paths: [app/]\n\
         \x20 ast_matchers:\n\
         \x20   - I18n::Tasks::Scanners::AstMatchers::RailsModelMatcher\n\
         \x20 unheard_of: 1\n");
    let reason = |key: &str| {
        m.dropped
            .iter()
            .find(|d| d.key == key)
            .map(|d| d.reason.clone())
            .unwrap_or_else(|| panic!("{key} was not dropped: {:?}", m.dropped))
    };
    assert!(reason("data.adapter").contains("YAML file system"));
    assert!(reason("data.json").contains("JSON locale files"));
    assert!(reason("data.something_else").contains("no such setting"));
    assert!(reason("search.ast_matchers").contains("always on"));
    assert!(reason("search.unheard_of").contains("no such setting"));
    assert!(m.output.contains("read:"));
    assert!(m.output.contains("paths:"));
}

#[test]
fn migrate_a_router_that_is_not_a_name_is_dropped() {
    let m = run("base_locale: de\n\
         data:\n\
         \x20 read:\n\
         \x20   - config/locales/%{locale}.yml\n\
         \x20 router:\n\
         \x20   - conservative_router\n");
    let d = m
        .dropped
        .iter()
        .find(|d| d.key == "data.router")
        .expect("dropped");
    assert!(d.reason.contains("must be a name"), "{}", d.reason);
    assert!(!m.output.contains("  router:"), "{}", m.output);
    assert!(m.output.contains("read:"), "{}", m.output);
}

#[test]
fn migrate_an_unterminated_erb_tag_is_removed_to_the_end() {
    let m = run("base_locale: de\nlocales: [de]\n# <% never closed\n");
    assert!(!m.output.contains("<%"), "{}", m.output);
    assert!(m.output.contains("base_locale: de"), "{}", m.output);
    let m = run("base_locale: de\nlocales: [de]\nignore_unused:\n  - \"<%= never closed\"\n");
    assert!(!m.output.contains("<%"), "{}", m.output);
    assert!(m.output.contains("[ERB]"), "{}", m.output);
    assert!(m.needs_attention());
}

#[test]
fn migrate_a_source_with_no_settings_left_is_an_error() {
    let e = migrate(
        "<% require 'x' %>\n# just a comment\n",
        "config/i18n-tasks.yml.erb",
        MIGRATION_TARGET,
        |s| yaml(&s, "config/i18n-tasks.yml.erb"),
    )
    .unwrap_err();
    assert!(e.contains("no settings found"), "{e}");
}

#[test]
fn migrate_a_source_of_the_wrong_shape_is_an_error() {
    let e = migrate(
        "- a\n- b\n",
        "config/i18n-tasks.yml",
        MIGRATION_TARGET,
        |s| yaml(&s, "config/i18n-tasks.yml"),
    )
    .unwrap_err();
    assert!(e.contains("config must be a YAML mapping"), "{e}");
    let e = migrate(
        "base_locale: de\ndata: config/locales\n",
        "config/i18n-tasks.yml",
        MIGRATION_TARGET,
        |s| yaml(&s, "config/i18n-tasks.yml"),
    )
    .unwrap_err();
    assert!(e.contains("`data` must be a mapping"), "{e}");
}

#[test]
fn migrate_the_report_text_names_what_happened() {
    let m = run("<% require 'x' %>\n\
         locales: [de]\n\
         internal_locale: ru\n\
         data:\n\
         \x20 read:\n\
         \x20   - config/locales/%{locale}.yml\n");
    let text = to_text(
        &m,
        "config/i18n-tasks.yml.erb",
        MIGRATION_TARGET,
        false,
    );
    assert!(text.contains("added base_locale: en"), "{text}");
    assert!(text.contains("removed ERB on 1 line(s)"), "{text}");
    assert!(text.contains("internal_locale"), "{text}");
    assert!(!m.needs_attention());
    let written = to_text(
        &m,
        "config/i18n-tasks.yml.erb",
        MIGRATION_TARGET,
        true,
    );
    assert!(written.contains(MIGRATION_TARGET), "{written}");
}

#[test]
fn migrate_the_output_never_holds_erb() {
    let m = run("base_locale: de\ndata:\n  read:\n    - config/locales/%{locale}.yml\n");
    assert!(!m.output.contains("<%"));
}

#[test]
fn mod_drops_the_erb_prelude_and_the_unsupported_sections() {
    let m = run("<% require 'lib/scanner' %>\n\
                 base_locale: de\n\
                 internal_locale: ru\n\
                 data:\n\
                 \x20 read:\n\
                 \x20   - config/locales/%{locale}.yml\n\
                 \x20 yaml:\n\
                 \x20   write:\n\
                 \x20     line_width: -1\n\
                 search:\n\
                 \x20 prism: \"rails\"\n\
                 \x20 strict: true\n\
                 \x20 paths:\n\
                 \x20   - app/\n\
                 translation:\n\
                 \x20 backend: openai\n");
    assert_eq!(m.kept, ["base_locale", "data", "search"]);
    assert_eq!(m.erb_lines, [1]);
    assert!(m.manual.is_empty());
    let dropped: Vec<&str> = m.dropped.iter().map(|d| d.key.as_str()).collect();
    assert_eq!(
        dropped,
        [
            "internal_locale",
            "data.yaml",
            "search.prism",
            "search.strict",
            "translation"
        ]
    );
    assert!(!m.output.contains("line_width"), "{}", m.output);
    assert!(!m.output.contains("openai"), "{}", m.output);
    assert!(m.output.contains("- config/locales/%{locale}.yml"));
    assert!(m.output.contains("- app/"));
}

#[test]
fn mod_keeps_the_comments_above_a_kept_key() {
    let m = run("base_locale: de\n\
                 \n\
                 # Rendered from a status enum.\n\
                 ignore_unused:\n\
                 \x20 - \"jobs.status.*\" # one per enum value\n");
    assert!(m.output.contains("# Rendered from a status enum."));
    assert!(m.output.contains("# one per enum value"));
}

#[test]
fn mod_comments_above_a_dropped_key_leave_with_it() {
    let m = run("base_locale: de\n\
                 \n\
                 ## Translation Services\n\
                 translation:\n\
                 \x20 backend: openai\n\
                 \n\
                 ignore: [\"a.*\"]\n");
    assert!(!m.output.contains("Translation Services"), "{}", m.output);
    assert!(m.output.contains("ignore: [\"a.*\"]"));
}

#[test]
fn mod_a_computed_value_is_reported_not_guessed() {
    let m = run("base_locale: de\n\
                 data:\n\
                 \x20 external:\n\
                 \x20   - \"<%= gem_path %>/locales/%{locale}.yml\"\n\
                 \x20 read:\n\
                 \x20   - config/locales/%{locale}.yml\n");
    assert!(m.needs_attention());
    assert_eq!(m.manual.len(), 1);
    assert_eq!(m.manual[0].line, 4);
    assert!(m.manual[0].text.contains("gem_path"));
    assert!(m.output.contains("NEEDS ATTENTION"));
    assert!(m.output.contains("[ERB]"), "{}", m.output);
    let cfg =
        Config::parse(&m.output, yaml(&m.output, MIGRATION_TARGET), MIGRATION_TARGET, ".").unwrap();
    assert!(cfg.data.external.is_empty());
    assert_eq!(cfg.data.read, ["config/locales/%{locale}.yml"]);
}

#[test]
fn mod_a_key_with_no_value_is_dropped() {
    let m = run("base_locale: de\n\
                 data:\n\
                 \x20 read:\n\
                 \x20   - config/locales/%{locale}.yml\n\
                 \x20 external:\n\
                 \x20 ## Example:\n\
                 \x20 # - vendor/locales/%{locale}.yml\n");
    assert!(m.dropped.iter().any(|d| d.key == "data.external"));
    let cfg =
        Config::parse(&m.output, yaml(&m.output, MIGRATION_TARGET), MIGRATION_TARGET, ".").unwrap();
    assert!(cfg.data.external.is_empty());
    assert!(!m.output.contains("vendor/locales"), "{}", m.output);
}

#[test]
fn mod_a_section_whose_every_child_is_dropped_goes_too() {
    let m = run("base_locale: de\nsearch:\n  scanners: [A]\n  strict: true\n");
    assert_eq!(m.kept, ["base_locale"]);
    assert!(m.dropped.iter().any(|d| d.key == "search"));
    assert!(!m.output.contains("search:"), "{}", m.output);
}

#[test]
fn mod_an_unknown_router_falls_back_to_the_default() {
    let m = run("base_locale: de\ndata:\n  router: isolating_router\n  keep_order: true\n");
    let d = m.dropped.iter().find(|d| d.key == "data.router").unwrap();
    assert!(d.reason.contains("isolating_router"), "{}", d.reason);
    assert!(m.output.contains("keep_order: true"));
}

#[test]
fn mod_a_missing_base_locale_is_written_out() {
    let m = run("locales: [de, en]\n");
    assert!(m.base_locale_defaulted);
    assert!(m.output.contains("base_locale: en"));
    let cfg =
        Config::parse(&m.output, yaml(&m.output, MIGRATION_TARGET), MIGRATION_TARGET, ".").unwrap();
    assert_eq!(cfg.base_locale, "en");
}

#[test]
fn mod_per_locale_ignore_hashes_survive() {
    let m = run("base_locale: de\n\
                 ignore_missing:\n\
                 \x20 all:\n\
                 \x20   - \"a.*\"\n\
                 \x20 \"fr,es\":\n\
                 \x20   - \"b.*\"\n");
    let cfg =
        Config::parse(&m.output, yaml(&m.output, MIGRATION_TARGET), MIGRATION_TARGET, ".").unwrap();
    let fr = cfg.ignore_patterns(IgnoreType::Missing, Some("fr"));
    assert!(fr.is_match("a.x") && fr.is_match("b.x"));
    let de = cfg.ignore_patterns(IgnoreType::Missing, Some("de"));
    assert!(de.is_match("a.x") && !de.is_match("b.x"));
}

#[test]
fn mod_a_multi_line_erb_block_is_removed_whole() {
    let m = run("<% I18n::Tasks.add_scanner 'X',\n\
                 \x20     only: %w(*.slim) %>\n\
                 base_locale: de\n");
    assert_eq!(m.erb_lines, [1, 2]);
    assert!(m.manual.is_empty());
    assert!(m.output.contains("base_locale: de"));
}

#[test]
fn mod_erb_inside_a_comment_is_removed() {
    let m = run("base_locale: de\n# <%# I18n::Tasks.add_scanner 'X' %>\nignore: [\"a.*\"]\n");
    assert!(!m.output.contains("<%"), "{}", m.output);
    assert!(m.output.contains("ignore: [\"a.*\"]"));
}

#[test]
fn mod_a_flow_style_section_is_refused_with_advice() {
    let e = migrate(
        "base_locale: de\nsearch: {paths: [app/], strict: true}\n",
        "config/i18n-tasks.yml",
        MIGRATION_TARGET,
        |s| yaml(&s, "config/i18n-tasks.yml"),
    )
    .unwrap_err();
    assert!(e.contains("flow style"), "{e}");
}

#[test]
fn mod_every_dropped_nested_setting_names_its_reason() {
    let m = run("base_locale: de\n\
         data:\n\
         \x20 read:\n\
         \x20   - config/locales/%{locale}.yml\n\
         \x20 adapter: json\n\
         \x20 json:\n\
         \x20   write:\n\
         \x20     indent: 2\n\
         \x20 something_else: 1\n\
         search:\n\
         \x20 paths: [app/]\n\
         \x20 ast_matchers:\n\
         \x20   - I18n::Tasks::Scanners::AstMatchers::RailsModelMatcher\n\
         \x20 unheard_of: 1\n");
    let reason = |key: &str| {
        let Some(d) = m.dropped.iter().find(|d| d.key == key) else {
            panic!("{key} was not dropped: {:?}", m.dropped)
        };
        d.reason.clone()
    };
    assert!(reason("data.adapter").contains("YAML file system"));
    assert!(reason("data.json").contains("JSON locale files"));
    assert!(reason("data.something_else").contains("no such setting"));
    assert!(reason("search.ast_matchers").contains("always on"));
    assert!(reason("search.unheard_of").contains("no such setting"));
    assert!(m.output.contains("read:"));
    assert!(m.output.contains("paths:"));
}

#[test]
fn mod_a_router_that_is_not_a_name_is_dropped() {
    let m = run("base_locale: de\n\
         data:\n\
         \x20 read:\n\
         \x20   - config/locales/%{locale}.yml\n\
         \x20 router:\n\
         \x20   - conservative_router\n");
    let d = m
        .dropped
        .iter()
        .find(|d| d.key == "data.router")
        .expect("dropped");
    assert!(d.reason.contains("must be a name"), "{}", d.reason);
    assert!(!m.output.contains("  router:"), "{}", m.output);
    assert!(m.output.contains("read:"), "{}", m.output);
}

#[test]
fn mod_an_unterminated_erb_tag_is_removed_to_the_end() {
    let m = run("base_locale: de\nlocales: [de]\n# <% never closed\n");
    assert!(!m.output.contains("<%"), "{}", m.output);
    assert!(m.output.contains("base_locale: de"), "{}", m.output);
    let m = run("base_locale: de\nlocales: [de]\nignore_unused:\n  - \"<%= never closed\"\n");
    assert!(!m.output.contains("<%"), "{}", m.output);
    assert!(m.output.contains("[ERB]"), "{}", m.output);
    assert!(m.needs_attention());
}

#[test]
fn mod_a_source_with_no_settings_left_is_an_error() {
    let e = migrate(
        "<% require 'x' %>\n# just a comment\n",
        "config/i18n-tasks.yml.erb",
        MIGRATION_TARGET,
        |s| yaml(&s, "config/i18n-tasks.yml.erb"),
    )
    .unwrap_err();
    assert!(e.contains("no settings found"), "{e}");
}

#[test]
fn mod_a_source_of_the_wrong_shape_is_an_error() {
    let e = migrate(
        "- a\n- b\n",
        "config/i18n-tasks.yml",
        MIGRATION_TARGET,
        |s| yaml(&s, "config/i18n-tasks.yml"),
    )
    .unwrap_err();
    assert!(e.contains("config must be a YAML mapping"), "{e}");
    let e = migrate(
        "base_locale: de\ndata: config/locales\n",
        "config/i18n-tasks.yml",
        MIGRATION_TARGET,
        |s| yaml(&s, "config/i18n-tasks.yml"),
    )
    .unwrap_err();
    assert!(e.contains("`data` must be a mapping"), "{e}");
}

#[test]
fn mod_the_report_text_names_what_happened() {
    let m = run("<% require 'x' %>\n\
         locales: [de]\n\
         internal_locale: ru\n\
         data:\n\
         \x20 read:\n\
         \x20   - config/locales/%{locale}.yml\n");
    let text = to_text(
        &m,
        "config/i18n-tasks.yml.erb",
        MIGRATION_TARGET,
        false,
    );
    assert!(text.contains("added base_locale: en"), "{text}");
    assert!(text.contains("removed ERB on 1 line(s)"), "{text}");
    assert!(text.contains("internal_locale"), "{text}");
    assert!(!m.needs_attention());
    let written = to_text(
        &m,
        "config/i18n-tasks.yml.erb",
        MIGRATION_TARGET,
        true,
    );
    assert!(written.contains(MIGRATION_TARGET), "{written}");
}

#[test]
fn mod_the_output_never_holds_erb() {
    let m = run("base_locale: de\ndata:\n  read:\n    - config/locales/%{locale}.yml\n");
    assert!(!m.output.contains("<%"));
}

#[test]
fn a_flag_that_is_no_scalar_is_refused() {
    for src in ["data:\n  keep_order: [a]\n", "data:\n  keep_order:\n    a: b\n"] {
        let e = read(src).unwrap_err();
        assert!(e.contains("data.keep_order"), "{e}");
    }
    assert!(!read("data:\n  keep_order: maybe\n").unwrap().data.keep_order);
}

#[test]
fn the_order_of_settings_does_not_change_the_digest() {
    let a = "base_locale: de\ndata:\n  read: [x]\n  router: pattern_router\nignore: [y]\n";
    let b = "# a note\nignore: [y]\n\ndata:\n  router: pattern_router\n  read: [x]\nbase_locale: de\n";
    let digest = read(a).unwrap().digest;
    let other = Config::parse(b, yaml(b, "elsewhere.yml"), "elsewhere.yml", "/other").unwrap();
    assert_eq!(digest, other.digest);
    assert_eq!(digest.len(), 16);
    assert!(digest.chars().all(|c| c.is_ascii_digit() || ('a'..='f').contains(&c)));
}

#[test]
fn only_lines_of_erb_alone_are_listed() {
    let src = "<% require 'x' %>\nbase_locale: de\nignore:\n  - \"<%= x %>/y\"\n  - a\n# <%= note %> text\n";
    let m = run(src);
    assert_eq!(m.erb_lines, [1]);
    assert_eq!(m.manual.len(), 1);
    assert_eq!(m.manual[0].line, 4);
    let other = run("base_locale: de\nignore:\n  - \"<%= x %>/y\"\n  - a\n");
    assert!(other.erb_lines.is_empty());
    assert_eq!(other.manual[0].line, 3);
}

#[test]
fn a_locale_is_replaced_there_and_back() {
    let path = "config/locales/base.de.yml";
    let there = replace_locale(path, "de", "fr");
    assert_eq!(there, "config/locales/base.fr.yml");
    assert_eq!(replace_locale(&there, "fr", "de"), path);
    assert_eq!(replace_locale(path, "de", "de"), path);
}

#[test]
fn the_header_of_a_migrated_config_names_what_was_dropped() {
    let m = run("data:\n  read: [x]\n  adapter: json\n");
    assert!(m.base_locale_defaulted);
    assert!(m.output.contains("\nbase_locale: en\n"), "{}", m.output);
    assert_eq!(m.dropped.len(), 1);
    let line = format!("#   data.adapter (line 3) — {}\n", m.dropped[0].reason);
    assert!(m.output.contains(&line), "{}", m.output);
}

#[test]
fn a_generated_config_gives_the_detected_settings() {
    let d = Detected {
        locale_dir: Some("config/locales".into()),
        files_seen: 1,
        unmatched: vec![],
        read: vec!["config/locales/%{locale}.yml".into()],
        write: "config/locales/%{locale}.yml".into(),
        locales: vec!["de".into()],
        base_locale: "de".into(),
        base_locale_from: None,
        search_paths: vec!["app/".into()],
        exclude: vec!["app/assets".into()],
        relative_roots: vec!["app/views".into()],
        relative_roots_detected: vec![],
        gem_config: None,
        notes: vec![],
    };
    let cfg = read(&init::render::render(&d, None)).unwrap();
    assert_eq!(cfg.base_locale, "de");
    assert_eq!(cfg.data.read, d.read);
    assert_eq!(cfg.data.write.len(), 1);
    assert_eq!(cfg.data.write[0].path, d.write);
    assert!(cfg.data.write[0].pattern.is_none());
    assert_eq!(cfg.search.paths, d.search_paths);
    assert_eq!(cfg.search.exclude, d.exclude);
    assert_eq!(cfg.search.relative_roots, d.relative_roots);
}

#[test]
fn a_default_base_locale_is_read_back() {
    let m = run("ignore: [a]\n");
    assert!(m.base_locale_defaulted);
    assert_eq!(read(&m.output).unwrap().base_locale, "en");
}

#[test]
fn stripping_keeps_the_lines_of_a_file_with_carriage_returns() {
    let s = strip_erb("<% x %>\r\r\nbase_locale: de\r\nignore: [a]\n");
    assert_eq!(s.text, "\nbase_locale: de\nignore: [a]\n");
    assert_eq!(s.erb_lines, [1]);
}

fn fnv1a64(bytes: &[u8]) -> u64 {
    bytes.iter().fold(0xcbf2_9ce4_8422_2325, |h: u64, b| {
        (h ^ u64::from(*b)).wrapping_mul(0x1000_0000_01b3)
    })
}

#[test]
fn the_digest_follows_every_setting() {
    let src = "base_locale: de\nlocales: [de, \"a\\tb\"]\nignore: ['x.*']\nignore_missing:\n  \"fr,es\": [y]\ndata:\n  write:\n    - ['a.*', 'p/%{locale}.yml']\n    - 'q.yml'\nsearch:\n  only: ['ü/**']\n";
    let cfg = read(src).unwrap();
    let text = format!(
        "base_locale={}\ndata.external={:?}\ndata.keep_order={:?}\ndata.read={:?}\ndata.router={:?}\ndata.write={:?}\nignore={:?}\nignore_eq_base={:?}\nignore_inconsistent_interpolations={:?}\nignore_missing={:?}\nignore_unused={:?}\nlocales={:?}\nsearch={:?}",
        cfg.base_locale,
        cfg.data.external,
        cfg.data.keep_order,
        cfg.data.read,
        cfg.data.router,
        cfg.data.write,
        cfg.ignore,
        cfg.ignore_eq_base,
        cfg.ignore_inconsistent_interpolations,
        cfg.ignore_missing,
        cfg.ignore_unused,
        cfg.locales,
        cfg.search
    );
    assert_eq!(cfg.digest, format!("{:016x}", fnv1a64(text.as_bytes())));
    assert_eq!(read(src).unwrap().digest, cfg.digest);
    assert_ne!(read("base_locale: en\n").unwrap().digest, cfg.digest);
}

fn text(s: &str) -> Value {
    Value::Str(s.to_string())
}

#[test]
fn a_written_file_reads_back_and_is_written_alike() {
    let values = [
        ("plain", text("Hello")),
        ("empty", text("")),
        ("quoted", text("it's: #1 \"x\" ")),
        ("escaped", text("a\tb\u{85}\\")),
        ("emoji", text("😀 ü")),
        ("yes", text("yes")),
        ("- odd: key", text("- x")),
        ("lines", text("one\n\n  two\n")),
        ("kept", text("one\ntwo\n\n\n")),
        ("stripped", text("one\ntwo")),
        ("number", Value::Plain("1.50".to_string())),
        ("flag", Value::Bool(true)),
        ("nothing", Value::Nil),
        ("none", Value::List(vec![])),
        (
            "list",
            Value::List(vec![
                text("a: b"),
                Value::Nil,
                Value::List(vec![text("x"), Value::List(vec![Value::Plain("2".to_string())])]),
                Value::Table(vec![
                    ("k".to_string(), text("one\ntwo\n")),
                    ("l".to_string(), Value::List(vec![text("m")])),
                    ("n".to_string(), Value::Table(vec![("o".to_string(), Value::Bool(false))])),
                ]),
                text("p\nq"),
            ]),
        ),
    ];
    let mut tree = Tree::new();
    for (name, value) in &values {
        tree.insert_segments(&vec!["deep".to_string(), name.to_string()], copy(value));
    }
    let written = emit_locale("en", &tree);
    let root = yaml(&written, "en.yml").unwrap().expect("a document");
    let locale = &root.as_map().unwrap()[0];
    assert_eq!(locale.0.as_str(), Some("en"));
    let deep = &locale.1.as_map().unwrap()[0].1;
    let entries = deep.as_map().unwrap();
    assert_eq!(entries.len(), values.len());
    let mut again = Tree::new();
    for ((name, value), (key, node)) in values.iter().zip(entries) {
        assert_eq!(key.as_str(), Some(*name));
        let read = to_value(node, "en.yml", true).unwrap();
        assert_eq!(&read, value, "{name}");
        again.insert_segments(&vec!["deep".to_string(), name.to_string()], read);
    }
    assert_eq!(emit_locale("en", &again), written);
}

fn copy(value: &Value) -> Value {
    match value {
        Value::Str(s) => Value::Str(s.clone()),
        Value::Nil => Value::Nil,
        Value::Bool(b) => Value::Bool(*b),
        Value::Plain(s) => Value::Plain(s.clone()),
        Value::List(v) => Value::List(v.iter().map(copy).collect()),
        Value::Table(v) => Value::Table(v.iter().map(|(k, v)| (k.clone(), copy(v))).collect()),
    }
}

#[test]
fn a_stale_rule_is_taken_out_of_the_config() {
    let src = "# kept\nbase_locale: en\nignore_unused:\n  - dead.*  # why\n  - live\nignore: [gone, live]\n";
    let path = "/project/config/i18n-tasks.yml";
    let cfg = Config::parse(src, yaml(src, path), path, "/project").unwrap();
    let mut tree = LocaleTree::new("en");
    tree.insert(Leaf {
        key: "live".to_string(),
        value: text("x"),
        depth: 1,
        path: "/project/config/locales/en.yml".to_string(),
        odd_segments: None,
    });
    tree.finish();
    let mut trees = TextMap::new();
    trees.insert("en".to_string(), tree);
    let store = Store {
        base_locale: "en".to_string(),
        locales: vec!["en".to_string()],
        trees,
        external: TextMap::new(),
        warnings: Vec::new(),
    };
    let used = UsedKeys::gather(
        FileScan { keys: vec![], patterns: vec![], opaque: vec![] },
        0,
        0,
    );
    let report = clean_config::plan(
        &cfg,
        &store,
        &used,
        &vec!["en".to_string()],
        src,
        &yaml(src, path),
        path,
    )
    .unwrap();
    let stale: Vec<(&str, &str, usize, bool)> = report
        .stale_rules
        .iter()
        .map(|r| (r.setting.as_str(), r.pattern.as_str(), r.line, r.manual))
        .collect();
    assert_eq!(
        stale,
        [("ignore_unused", "dead.*", 4, false), ("ignore", "gone", 6, true)]
    );
    assert_eq!(
        report.cleaned,
        "# kept\nbase_locale: en\nignore_unused:\n  - live\nignore: [gone, live]\n"
    );
    assert!(report.has_edit() && report.has_manual() && !report.is_clean());
    assert_eq!(
        report.diff(),
        "--- /project/config/i18n-tasks.yml\n+++ /project/config/i18n-tasks.yml\n@@ -1,6 +1,5 @@\n # kept\n base_locale: en\n ignore_unused:\n-  - dead.*  # why\n   - live\n ignore: [gone, live]\n"
    );
    assert_eq!(
        report.manual_note(),
        "1 stale rule shares a line with a rule that is still in use (flow style, `[a, b]`):\n  /project/config/i18n-tasks.yml:6: `ignore` rule `gone`\nRemove it by hand, or rewrite the list as an indented block and run this again.\n"
    );
}

#[test]
fn a_gem_config_is_looked_for_in_order() {
    assert_eq!(
        find_gem_config("/project", &vec![false, true]).as_deref(),
        Some("/project/config/i18n-tasks.yml.erb")
    );
    assert_eq!(
        find_gem_config("/project", &vec![true, true]).as_deref(),
        Some("/project/config/i18n-tasks.yml")
    );
    assert_eq!(find_gem_config("/project", &vec![false, false]), None);
}

/// Reads a document. `path` names the file in messages; `None` is a file that
/// holds nothing but comments.
fn yaml(src: &str, path: &str) -> Result<Option<Node>, String> {
    let mut reader = Reader { chars: src.chars().collect(), at: 0, line: 1, start: 0 };
    reader
        .document()
        .map_err(|problem| format!("{path}:{}: {problem}", reader.line))
}

struct Reader {
    chars: Vec<char>,
    at: usize,
    line: usize,
    /// Where the current line starts.
    start: usize,
}

impl Reader {
    fn peek(&self) -> Option<char> {
        self.chars.get(self.at).copied()
    }

    fn peek_at(&self, ahead: usize) -> Option<char> {
        self.chars.get(self.at + ahead).copied()
    }

    fn column(&self) -> usize {
        self.at - self.start
    }

    fn bump(&mut self) {
        if self.peek() == Some('\n') {
            self.line += 1;
            self.start = self.at + 1;
        }
        self.at += 1;
    }

    fn skip_blanks(&mut self) {
        while matches!(self.peek(), Some(' ' | '\t')) {
            self.bump();
        }
    }

    fn at_line_end(&self) -> bool {
        matches!(self.peek(), None | Some('\n' | '\r'))
    }

    fn at_comment(&self) -> bool {
        self.peek() == Some('#')
            && (self.at == self.start || matches!(self.chars[self.at - 1], ' ' | '\t' | '\n'))
    }

    /// Moves to the next character that is neither blank nor in a comment.
    fn skip_empty(&mut self) {
        loop {
            self.skip_blanks();
            if self.at_comment() {
                while !matches!(self.peek(), None | Some('\n')) {
                    self.bump();
                }
            }
            match self.peek() {
                Some('\n' | '\r') => self.bump(),
                _ => return,
            }
        }
    }

    fn document(&mut self) -> Result<Option<Node>, String> {
        self.skip_empty();
        if self.column() == 0 && self.rest_starts_with("---") {
            self.at += 3;
            self.skip_empty();
        }
        if self.peek().is_none() {
            return Ok(None);
        }
        let node = self.block(0)?;
        self.skip_empty();
        match self.peek() {
            None => Ok(Some(node)),
            Some(c) => Err(format!("unexpected `{c}`")),
        }
    }

    fn rest_starts_with(&self, text: &str) -> bool {
        text.chars()
            .enumerate()
            .all(|(k, c)| self.peek_at(k) == Some(c))
    }

    fn at_dash(&self) -> bool {
        self.peek() == Some('-')
            && matches!(self.peek_at(1), None | Some(' ' | '\t' | '\n' | '\r'))
    }

    fn null(&self, line: usize) -> Node {
        Node::Scalar { value: String::new(), plain: true, line }
    }

    /// A node whose first character stands at or right of `indent`.
    fn block(&mut self, indent: usize) -> Result<Node, String> {
        self.skip_empty();
        if self.peek().is_none() || self.column() < indent {
            return Ok(self.null(self.line));
        }
        let column = self.column();
        if self.at_dash() {
            return self.sequence(column);
        }
        if self.at_key() {
            return self.mapping(column);
        }
        self.value(indent.saturating_sub(1))
    }

    /// Whether a mapping key starts here.
    fn at_key(&self) -> bool {
        let mut at = self.at;
        match self.chars.get(at) {
            Some(quote @ ('"' | '\'')) => {
                at += 1;
                loop {
                    match self.chars.get(at) {
                        None | Some('\n') => return false,
                        Some('\\') if *quote == '"' => at += 2,
                        Some(c) if c == quote => {
                            at += 1;
                            if *quote == '\'' && self.chars.get(at) == Some(&'\'') {
                                at += 1;
                            } else {
                                break;
                            }
                        }
                        Some(_) => at += 1,
                    }
                }
                while matches!(self.chars.get(at), Some(' ' | '\t')) {
                    at += 1;
                }
                self.ends_key(at)
            }
            Some('[' | '{' | '|' | '>' | '#' | '&' | '*' | '!' | '%' | '@' | '`') | None => false,
            Some(_) => {
                while let Some(c) = self.chars.get(at) {
                    match c {
                        '\n' | '\r' => return false,
                        ':' if self.ends_key(at) => return true,
                        '#' if at > 0 && matches!(self.chars[at - 1], ' ' | '\t') => return false,
                        _ => at += 1,
                    }
                }
                false
            }
        }
    }

    fn ends_key(&self, at: usize) -> bool {
        self.chars.get(at) == Some(&':')
            && matches!(self.chars.get(at + 1), None | Some(' ' | '\t' | '\n' | '\r'))
    }

    fn mapping(&mut self, column: usize) -> Result<Node, String> {
        let line = self.line;
        let mut entries = Vec::new();
        loop {
            self.skip_empty();
            if self.peek().is_none() || self.column() != column || self.at_dash() {
                break;
            }
            if !self.at_key() {
                return Err("expected a mapping key".to_string());
            }
            let key = self.key()?;
            self.skip_blanks();
            // The colon that `at_key` found.
            self.bump();
            let value = self.entry_value(column)?;
            entries.push((key, value));
        }
        if self.peek().is_some() && self.column() > column {
            return Err("unexpected indentation".to_string());
        }
        Ok(Node::Mapping { entries, line })
    }

    fn key(&mut self) -> Result<Node, String> {
        let line = self.line;
        match self.peek() {
            Some(quote @ ('"' | '\'')) => {
                let value = self.quoted(quote)?;
                Ok(Node::Scalar { value, plain: false, line })
            }
            _ => {
                let mut value = String::new();
                while !self.ends_key(self.at) {
                    if let Some(c) = self.peek() {
                        value.push(c);
                    }
                    self.bump();
                }
                Ok(Node::Scalar { value: value.trim_end().to_string(), plain: true, line })
            }
        }
    }

    fn entry_value(&mut self, column: usize) -> Result<Node, String> {
        let line = self.line;
        self.skip_blanks();
        if !self.at_line_end() && !self.at_comment() {
            return self.value(column);
        }
        self.skip_empty();
        if self.peek().is_none() || self.column() < column {
            return Ok(self.null(line));
        }
        if self.column() == column {
            return if self.at_dash() {
                self.sequence(column)
            } else {
                Ok(self.null(line))
            };
        }
        self.block(column + 1)
    }

    fn sequence(&mut self, column: usize) -> Result<Node, String> {
        let line = self.line;
        let mut items = Vec::new();
        loop {
            self.skip_empty();
            if self.peek().is_none() || self.column() != column || !self.at_dash() {
                break;
            }
            let item_line = self.line;
            self.bump();
            self.skip_blanks();
            if self.at_line_end() || self.at_comment() {
                self.skip_empty();
                if self.peek().is_none() || self.column() <= column {
                    items.push(self.null(item_line));
                    continue;
                }
            }
            items.push(self.block(column + 1)?);
        }
        Ok(Node::List { items, line })
    }

    /// A scalar or a flow collection. Lines that continue it are indented
    /// further than `indent`.
    fn value(&mut self, indent: usize) -> Result<Node, String> {
        let line = self.line;
        match self.peek() {
            Some('[' | '{') => self.flow(),
            Some(quote @ ('"' | '\'')) => {
                let value = self.quoted(quote)?;
                Ok(Node::Scalar { value, plain: false, line })
            }
            Some(style @ ('|' | '>')) => {
                let value = self.block_scalar(style, indent)?;
                Ok(Node::Scalar { value, plain: false, line })
            }
            Some(c @ ('&' | '*' | '!')) => Err(format!("`{c}` is not supported")),
            Some(c @ ('%' | '@' | '`')) => Err(format!("`{c}` cannot start a scalar")),
            _ => self.plain(indent),
        }
    }

    fn plain(&mut self, indent: usize) -> Result<Node, String> {
        let line = self.line;
        let mut value = self.plain_line();
        loop {
            let (at, number, start) = (self.at, self.line, self.start);
            let mut breaks = 0usize;
            while self.at_line_end() && self.peek().is_some() {
                if self.peek() == Some('\n') {
                    breaks += 1;
                }
                self.bump();
                self.skip_blanks();
            }
            if breaks == 0
                || self.peek().is_none()
                || self.column() <= indent
                || self.at_comment()
                || self.at_dash()
                || self.at_key()
            {
                (self.at, self.line, self.start) = (at, number, start);
                break;
            }
            if breaks == 1 {
                value.push(' ');
            } else {
                value.push_str(&"\n".repeat(breaks - 1));
            }
            value.push_str(&self.plain_line());
        }
        Ok(Node::Scalar { value, plain: true, line })
    }

    fn plain_line(&mut self) -> String {
        let mut value = String::new();
        while !self.at_line_end() && !self.at_comment() {
            if let Some(c) = self.peek() {
                value.push(c);
            }
            self.bump();
        }
        value.trim_end().to_string()
    }

    fn quoted(&mut self, quote: char) -> Result<String, String> {
        let mut value = String::new();
        self.bump();
        loop {
            match self.peek() {
                None => return Err("unterminated quoted scalar".to_string()),
                Some('\\') if quote == '"' => {
                    self.bump();
                    self.escape(&mut value)?;
                }
                Some(c) if c == quote => {
                    self.bump();
                    if quote == '\'' && self.peek() == Some('\'') {
                        value.push('\'');
                        self.bump();
                    } else {
                        return Ok(value);
                    }
                }
                Some('\n' | '\r') => self.fold(&mut value),
                Some(c) => {
                    value.push(c);
                    self.bump();
                }
            }
        }
    }

    /// A line break inside quotes: one becomes a blank, more become breaks.
    fn fold(&mut self, value: &mut String) {
        value.truncate(value.trim_end_matches([' ', '\t']).len());
        let mut breaks = 0usize;
        while matches!(self.peek(), Some('\n' | '\r')) {
            if self.peek() == Some('\n') {
                breaks += 1;
            }
            self.bump();
            self.skip_blanks();
        }
        if breaks <= 1 {
            value.push(' ');
        } else {
            value.push_str(&"\n".repeat(breaks - 1));
        }
    }

    fn escape(&mut self, value: &mut String) -> Result<(), String> {
        let Some(c) = self.peek() else {
            return Err("unterminated escape".to_string());
        };
        self.bump();
        let plain = match c {
            '0' => '\0',
            'a' => '\u{7}',
            'b' => '\u{8}',
            't' | '\t' => '\t',
            'n' => '\n',
            'v' => '\u{b}',
            'f' => '\u{c}',
            'r' => '\r',
            'e' => '\u{1b}',
            'N' => '\u{85}',
            '_' => '\u{a0}',
            'L' => '\u{2028}',
            'P' => '\u{2029}',
            ' ' | '"' | '/' | '\\' => c,
            '\n' => {
                self.skip_blanks();
                return Ok(());
            }
            'x' => self.code_point(2)?,
            'u' => self.code_point(4)?,
            'U' => self.code_point(8)?,
            other => return Err(format!("unknown escape `\\{other}`")),
        };
        value.push(plain);
        Ok(())
    }

    fn code_point(&mut self, digits: usize) -> Result<char, String> {
        let mut code = 0u32;
        for _ in 0..digits {
            let digit = self
                .peek()
                .and_then(|c| c.to_digit(16))
                .ok_or("bad escape")?;
            code = code * 16 + digit;
            self.bump();
        }
        char::from_u32(code).ok_or_else(|| "bad escape".to_string())
    }

    fn block_scalar(&mut self, style: char, indent: usize) -> Result<String, String> {
        self.bump();
        let mut chomp = None;
        let mut given = None;
        while !self.at_line_end() && !self.at_comment() {
            match self.peek() {
                Some(c @ ('+' | '-')) => chomp = Some(c),
                Some(c @ '1'..='9') => given = c.to_digit(10).map(|d| d as usize),
                Some(' ' | '\t') => {}
                _ => return Err("bad block scalar header".to_string()),
            }
            self.bump();
        }
        while !matches!(self.peek(), None | Some('\n')) {
            self.bump();
        }
        if self.peek().is_some() {
            self.bump();
        }
        let mut lines: Vec<String> = Vec::new();
        let mut width = given.map(|d| indent + d);
        while self.peek().is_some() {
            let mut blanks = 0usize;
            while self.peek_at(blanks) == Some(' ') {
                blanks += 1;
            }
            let empty = matches!(self.peek_at(blanks), None | Some('\n' | '\r'));
            if !empty && (blanks <= indent || width.is_some_and(|w| blanks < w)) {
                break;
            }
            if !empty && width.is_none() {
                width = Some(blanks);
            }
            let cut = width.unwrap_or(blanks).min(blanks);
            for _ in 0..cut {
                self.bump();
            }
            let mut text = String::new();
            while !matches!(self.peek(), None | Some('\n')) {
                if let Some(c) = self.peek().filter(|c| *c != '\r') {
                    text.push(c);
                }
                self.bump();
            }
            if self.peek().is_some() {
                self.bump();
            }
            lines.push(if empty { String::new() } else { text });
        }
        let trailing = lines.iter().rev().take_while(|l| l.is_empty()).count();
        let body = &lines[..lines.len() - trailing];
        let mut value = if style == '|' { body.join("\n") } else { folded(body) };
        match chomp {
            Some('-') => {}
            Some(_) => value.push_str(&"\n".repeat(trailing + usize::from(!body.is_empty()))),
            None if !body.is_empty() => value.push('\n'),
            None => {}
        }
        Ok(value)
    }

    fn flow(&mut self) -> Result<Node, String> {
        self.skip_empty();
        let line = self.line;
        match self.peek() {
            Some('[') => {
                self.bump();
                let mut items = Vec::new();
                loop {
                    self.skip_empty();
                    match self.peek() {
                        Some(']') => {
                            self.bump();
                            return Ok(Node::List { items, line });
                        }
                        Some(',') => self.bump(),
                        None => return Err("unterminated flow sequence".to_string()),
                        _ => items.push(self.flow()?),
                    }
                }
            }
            Some('{') => {
                self.bump();
                let mut entries = Vec::new();
                loop {
                    self.skip_empty();
                    match self.peek() {
                        Some('}') => {
                            self.bump();
                            return Ok(Node::Mapping { entries, line });
                        }
                        Some(',') => self.bump(),
                        None => return Err("unterminated flow mapping".to_string()),
                        _ => {
                            let key = self.flow()?;
                            self.skip_empty();
                            let value = if self.peek() == Some(':') {
                                self.bump();
                                self.skip_empty();
                                if matches!(self.peek(), Some(',' | '}')) {
                                    self.null(self.line)
                                } else {
                                    self.flow()?
                                }
                            } else {
                                self.null(self.line)
                            };
                            entries.push((key, value));
                        }
                    }
                }
            }
            Some(quote @ ('"' | '\'')) => {
                let value = self.quoted(quote)?;
                Ok(Node::Scalar { value, plain: false, line })
            }
            _ => {
                let mut value = String::new();
                while let Some(c) = self.peek() {
                    let ends = matches!(c, ',' | '[' | ']' | '{' | '}' | '\n')
                        || self.at_comment()
                        || (c == ':'
                            && matches!(
                                self.peek_at(1),
                                None | Some(' ' | '\t' | '\n' | ',' | '[' | ']' | '{' | '}')
                            ));
                    if ends {
                        break;
                    }
                    value.push(c);
                    self.bump();
                }
                Ok(Node::Scalar { value: value.trim_end().to_string(), plain: true, line })
            }
        }
    }
}

/// The lines of a folded scalar: a single break becomes a blank.
fn folded(lines: &[String]) -> String {
    let mut out = String::new();
    let mut breaks = 0usize;
    for (i, line) in lines.iter().enumerate() {
        if line.is_empty() {
            breaks += 1;
            continue;
        }
        if i > 0 {
            let kept = line.starts_with(' ') || (i > 0 && lines[i - 1].starts_with(' '));
            if breaks > 0 {
                out.push_str(&"\n".repeat(breaks + usize::from(kept)));
            } else if !out.is_empty() {
                out.push(if kept { '\n' } else { ' ' });
            }
        }
        breaks = 0;
        out.push_str(line);
    }
    out
}
