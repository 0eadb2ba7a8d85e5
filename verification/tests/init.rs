//! What `init-config` sees in a project.
use i18n_tasks_rs::data::locale_path::locale_for_path;
use i18n_tasks_rs::init::layout::{
    classify, default_locale_in, enclosing_root, looks_like_locale, preview, uses_relative_key,
    write_target, Shape,
};
use i18n_tasks_rs::init::render::quoted;

#[test]
fn init_locale_codes_are_recognised_narrowly() {
    for yes in ["en", "de", "fra", "pt-BR", "zh-Hans", "zh-Hans-CN", "pt_BR"] {
        assert!(looks_like_locale(yes), "{yes}");
    }
    for no in ["devise", "base", "e", "EN", "en-", "en2", "1en", ""] {
        assert!(!looks_like_locale(no), "{no}");
    }
}

#[test]
fn init_every_layout_has_a_shape() {
    assert_eq!(classify("en.yml"), Some(Shape::Flat));
    assert_eq!(classify("pt-BR.yaml"), Some(Shape::Flat));
    assert_eq!(classify("devise.en.yml"), Some(Shape::Namespaced));
    assert_eq!(classify("en/models.yml"), Some(Shape::LocaleDir));
    assert_eq!(classify("en/admin/panel.yml"), Some(Shape::LocaleDirDeep));
    assert_eq!(classify("admin/en.yml"), Some(Shape::SubdirFlat));
    assert_eq!(
        classify("admin/devise.en.yml"),
        Some(Shape::SubdirNamespaced)
    );
    assert_eq!(classify("defaults.yml"), None);
    assert_eq!(classify("admin/defaults.yml"), None);
}

#[test]
fn init_each_pattern_reads_the_file_it_came_from() {
    for (file, shape) in [
        ("en.yml", Shape::Flat),
        ("devise.en.yml", Shape::Namespaced),
        ("en/models.yml", Shape::LocaleDir),
        ("en/admin/panel.yml", Shape::LocaleDirDeep),
        ("admin/en.yml", Shape::SubdirFlat),
        ("admin/devise.en.yml", Shape::SubdirNamespaced),
    ] {
        assert_eq!(classify(file), Some(shape), "{file}");
        let pattern = shape.pattern("config/locales", "yml");
        assert_eq!(
            locale_for_path(&pattern, &format!("config/locales/{file}")).as_deref(),
            Some("en"),
            "{pattern} does not read {file}"
        );
    }
}

#[test]
fn init_the_deep_pattern_alone_misses_the_shallow_file() {
    let deep = Shape::LocaleDirDeep.pattern("config/locales", "yml");
    assert_eq!(locale_for_path(&deep, "config/locales/en/models.yml"), None);
    let shallow = Shape::LocaleDir.pattern("config/locales", "yml");
    assert_eq!(
        locale_for_path(&shallow, "config/locales/en/models.yml").as_deref(),
        Some("en")
    );
}

#[test]
fn init_the_write_target_is_one_the_read_patterns_read() {
    let flat = vec!["config/locales/%{locale}.yml".to_string()];
    assert_eq!(
        write_target("config/locales", "yml", "en", &flat).as_deref(),
        Some("config/locales/%{locale}.yml")
    );
    let namespaced = vec!["config/locales/*.%{locale}.yml".to_string()];
    assert_eq!(
        write_target("config/locales", "yml", "en", &namespaced).as_deref(),
        Some("config/locales/common.%{locale}.yml")
    );
    let dirs = vec!["config/locales/%{locale}/*.yml".to_string()];
    assert_eq!(
        write_target("config/locales", "yml", "en", &dirs).as_deref(),
        Some("config/locales/%{locale}/common.yml")
    );
    let odd = vec!["config/locales/deep/**/%{locale}.yml".to_string()];
    assert_eq!(write_target("config/locales", "yml", "en", &odd), None);
}

#[test]
fn init_default_locale_is_read_from_the_assignment_only() {
    assert_eq!(
        default_locale_in("    config.i18n.default_locale = :de"),
        Some("de".into())
    );
    assert_eq!(
        default_locale_in("I18n.default_locale = \"pt-BR\""),
        Some("pt-BR".into())
    );
    assert_eq!(
        default_locale_in("config.i18n.default_locale='fr'"),
        Some("fr".into())
    );
    assert_eq!(default_locale_in("x = I18n.default_locale"), None);
    assert_eq!(
        default_locale_in("config.i18n.default_locale = ENV['LOCALE']"),
        None
    );
    assert_eq!(default_locale_in("if I18n.default_locale == :de"), None);
    assert_eq!(default_locale_in("I18n.default_locale = \"de"), None);
    assert_eq!(
        default_locale_in("config.i18n.available_locales = [:de]"),
        None
    );
}

#[test]
fn init_relative_keys_are_found_without_a_parser() {
    for yes in [
        "t('.title')",
        "t(\".title\")",
        "<%= t \".title\" %>",
        "t!('.title')",
        "translate('.title')",
        "= t '.title'",
    ] {
        assert!(uses_relative_key(yes.as_bytes()), "{yes}");
    }
    for no in [
        "format(\".2f\", x)",
        "t('title')",
        "assert(\".x\")",
        "I18n.t(\"a.b\")",
        "attr(\".x\")",
    ] {
        assert!(!uses_relative_key(no.as_bytes()), "{no}");
    }
}

#[test]
fn init_the_relative_root_is_the_first_two_components() {
    assert_eq!(
        enclosing_root("app/views/users/index.html.erb").as_deref(),
        Some("app/views")
    );
    assert_eq!(enclosing_root("app/a.rb").as_deref(), Some("app"));
    assert_eq!(enclosing_root("a.rb"), None);
}

#[test]
fn a_path_is_quoted_only_when_yaml_needs_it() {
    for plain in [
        "config/locales/%{locale}.yml",
        "config/locales/*.%{locale}.yml",
        "config/locales/%{locale}/**/*.yml",
    ] {
        assert_eq!(quoted(plain), plain);
    }
    assert_eq!(quoted("*.%{locale}.yml"), "\"*.%{locale}.yml\"");
}

#[test]
fn a_path_that_reads_as_no_string_is_quoted() {
    for path in ["", "true", "12", "~", "- a", "-", "? a", "a: b", "a:", "a #b", "[a]", "#a"] {
        assert_eq!(quoted(path), format!("\"{path}\""));
    }
    assert_eq!(quoted("*\"\\"), "\"*\\\"\\\\\"");
    for plain in ["-a", "a:b", "a#b", "yml"] {
        assert_eq!(quoted(plain), plain);
    }
}

#[test]
fn detect_locale_codes_are_recognised_narrowly() {
    for yes in ["en", "de", "fra", "pt-BR", "zh-Hans", "zh-Hans-CN", "pt_BR"] {
        assert!(looks_like_locale(yes), "{yes}");
    }
    for no in ["devise", "base", "e", "EN", "en-", "en2", "1en", ""] {
        assert!(!looks_like_locale(no), "{no}");
    }
}

#[test]
fn detect_every_layout_has_a_shape() {
    assert_eq!(classify("en.yml"), Some(Shape::Flat));
    assert_eq!(classify("pt-BR.yaml"), Some(Shape::Flat));
    assert_eq!(classify("devise.en.yml"), Some(Shape::Namespaced));
    assert_eq!(classify("en/models.yml"), Some(Shape::LocaleDir));
    assert_eq!(classify("en/admin/panel.yml"), Some(Shape::LocaleDirDeep));
    assert_eq!(classify("admin/en.yml"), Some(Shape::SubdirFlat));
    assert_eq!(
        classify("admin/devise.en.yml"),
        Some(Shape::SubdirNamespaced)
    );
    assert_eq!(classify("defaults.yml"), None);
    assert_eq!(classify("admin/defaults.yml"), None);
}

#[test]
fn detect_each_pattern_reads_the_file_it_came_from() {
    for (file, shape) in [
        ("en.yml", Shape::Flat),
        ("devise.en.yml", Shape::Namespaced),
        ("en/models.yml", Shape::LocaleDir),
        ("en/admin/panel.yml", Shape::LocaleDirDeep),
        ("admin/en.yml", Shape::SubdirFlat),
        ("admin/devise.en.yml", Shape::SubdirNamespaced),
    ] {
        assert_eq!(classify(file), Some(shape), "{file}");
        let pattern = shape.pattern("config/locales", "yml");
        assert_eq!(
            locale_for_path(&pattern, &format!("config/locales/{file}")).as_deref(),
            Some("en"),
            "{pattern} does not read {file}"
        );
    }
}

#[test]
fn detect_the_deep_pattern_alone_misses_the_shallow_file() {
    let deep = Shape::LocaleDirDeep.pattern("config/locales", "yml");
    assert_eq!(locale_for_path(&deep, "config/locales/en/models.yml"), None);
    let shallow = Shape::LocaleDir.pattern("config/locales", "yml");
    assert_eq!(
        locale_for_path(&shallow, "config/locales/en/models.yml").as_deref(),
        Some("en")
    );
}

#[test]
fn detect_the_write_target_is_one_the_read_patterns_read() {
    let flat = vec!["config/locales/%{locale}.yml".to_string()];
    assert_eq!(
        write_target("config/locales", "yml", "en", &flat).as_deref(),
        Some("config/locales/%{locale}.yml")
    );
    let namespaced = vec!["config/locales/*.%{locale}.yml".to_string()];
    assert_eq!(
        write_target("config/locales", "yml", "en", &namespaced).as_deref(),
        Some("config/locales/common.%{locale}.yml")
    );
    let dirs = vec!["config/locales/%{locale}/*.yml".to_string()];
    assert_eq!(
        write_target("config/locales", "yml", "en", &dirs).as_deref(),
        Some("config/locales/%{locale}/common.yml")
    );
    let odd = vec!["config/locales/deep/**/%{locale}.yml".to_string()];
    assert_eq!(write_target("config/locales", "yml", "en", &odd), None);
}

#[test]
fn detect_default_locale_is_read_from_the_assignment_only() {
    assert_eq!(
        default_locale_in("    config.i18n.default_locale = :de"),
        Some("de".into())
    );
    assert_eq!(
        default_locale_in("I18n.default_locale = \"pt-BR\""),
        Some("pt-BR".into())
    );
    assert_eq!(
        default_locale_in("config.i18n.default_locale='fr'"),
        Some("fr".into())
    );
    assert_eq!(default_locale_in("x = I18n.default_locale"), None);
    assert_eq!(
        default_locale_in("config.i18n.default_locale = ENV['LOCALE']"),
        None
    );
    assert_eq!(default_locale_in("if I18n.default_locale == :de"), None);
    assert_eq!(default_locale_in("I18n.default_locale = \"de"), None);
    assert_eq!(
        default_locale_in("config.i18n.available_locales = [:de]"),
        None
    );
}

#[test]
fn detect_relative_keys_are_found_without_a_parser() {
    for yes in [
        "t('.title')",
        "t(\".title\")",
        "<%= t \".title\" %>",
        "t!('.title')",
        "translate('.title')",
        "= t '.title'",
    ] {
        assert!(uses_relative_key(yes.as_bytes()), "{yes}");
    }
    for no in [
        "format(\".2f\", x)",
        "t('title')",
        "assert(\".x\")",
        "I18n.t(\"a.b\")",
        "attr(\".x\")",
    ] {
        assert!(!uses_relative_key(no.as_bytes()), "{no}");
    }
}

#[test]
fn detect_the_relative_root_is_the_first_two_components() {
    assert_eq!(
        enclosing_root("app/views/users/index.html.erb").as_deref(),
        Some("app/views")
    );
    assert_eq!(enclosing_root("app/a.rb").as_deref(), Some("app"));
    assert_eq!(enclosing_root("a.rb"), None);
}

#[test]
fn a_note_previews_three_items_and_counts_the_rest() {
    let items: Vec<String> = ["a.yml", "b.yml", "c.yml", "d.yml", "e.yml"]
        .iter()
        .map(|s| (*s).to_string())
        .collect();
    assert_eq!(preview(&items), "a.yml, b.yml, c.yml, and 2 more");
    assert_eq!(preview(&items[..3].to_vec()), "a.yml, b.yml, c.yml");
    assert_eq!(preview(&items[..1].to_vec()), "a.yml");
    assert_eq!(preview(&vec![]), "");
}
