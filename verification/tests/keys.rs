//! How keys are split.
use i18n_tasks_rs::keys::{last_key_part, parent_key, split_key, split_key_max, underscore};

#[test]
fn splits_on_dots() {
    let empty: Vec<String> = Vec::new();
    assert_eq!(split_key(""), empty);
    assert_eq!(split_key("a"), vec!["a"]);
    assert_eq!(split_key("a.b"), vec!["a", "b"]);
    assert_eq!(split_key("a.b."), vec!["a", "b"]);
    assert_eq!(split_key("a.b.c"), vec!["a", "b", "c"]);
    assert_eq!(split_key("a.#{b.c}"), vec!["a", "#{b.c}"]);
    assert_eq!(split_key("a.#{b.c}."), vec!["a", "#{b.c}"]);
    assert_eq!(split_key("a.#{b.c}.d"), vec!["a", "#{b.c}", "d"]);
    assert_eq!(
        split_key("a.#{b.c}.d.[e.f]"),
        vec!["a", "#{b.c}", "d", "[e.f]"]
    );
    assert_eq!(
        split_key("a.#{b.c}.d.<e.f>"),
        vec!["a", "#{b.c}", "d", "<e.f>"]
    );
    assert_eq!(split_key("a.b->c.d.<e.f>"), vec!["a", "b->c", "d", "<e.f>"]);
    assert_eq!(
        split_key("a.b.c.d.<e.f"),
        vec!["a", "b", "c", "d", "<e", "f"]
    );
    assert_eq!(split_key("a.(b.c).d"), vec!["a", "(b.c)", "d"]);
}

#[test]
fn split_key_honours_the_limit() {
    assert_eq!(split_key_max("a.b.c", 1), vec!["a.b.c"]);
    assert_eq!(split_key_max("a.b.c", 2), vec!["a", "b.c"]);
    assert_eq!(split_key_max("a.b.c.", 2), vec!["a", "b.c."]);
    assert_eq!(
        split_key_max("a.b.c.d.e.f", 4),
        vec!["a", "b", "c", "d.e.f"]
    );
    assert_eq!(split_key_max("a.b.", 3), vec!["a", "b"]);
}

#[test]
fn last_part_of_a_key() {
    assert_eq!(last_key_part("a.b.c"), "c");
    assert_eq!(last_key_part("a"), "a");
    assert_eq!(last_key_part("a.b.c.d"), "d");
    assert_eq!(last_key_part(""), "");
}

#[test]
fn underscore_matches_active_support() {
    assert_eq!(underscore("HTTPServer"), "http_server");
    assert_eq!(underscore("UsersController"), "users_controller");
    assert_eq!(
        underscore("Admin::V2::JobsController"),
        "admin/v2/jobs_controller"
    );
    assert_eq!(underscore("already_snake"), "already_snake");
    assert_eq!(underscore("Foo-Bar"), "foo_bar");
    assert_eq!(underscore("A"), "a");
    assert_eq!(underscore("APIv2Thing"), "ap_iv2_thing");
    assert_eq!(underscore("Job::IndexPresenter"), "job/index_presenter");
    assert_eq!(underscore("ABCDef"), "abc_def");
    assert_eq!(underscore("XMLHttpRequest"), "xml_http_request");
    assert_eq!(underscore("V2"), "v2");
    assert_eq!(underscore("A1B2"), "a1_b2");
    assert_eq!(underscore("SimpleForm2Thing"), "simple_form2_thing");
}

#[test]
fn parent_key_walks_up() {
    assert_eq!(parent_key("a.b.c"), Some("a.b"));
    assert_eq!(parent_key("a"), None);
}

#[test]
fn underscore_twice_is_underscore_once() {
    for word in ["HTMLParser", "Foo::Bar-Baz", ":::x", "already_snake", "A1B2", "ÄHTMLÖ-Σ::ΑΣ"] {
        let once = underscore(word);
        assert_eq!(underscore(&once), once, "{word}");
        assert!(!once.contains('-') && !once.contains("::"), "{once}");
        assert!(!once.chars().any(|c| c.is_ascii_uppercase()), "{once}");
    }
}

#[test]
fn limited_parts_join_to_the_key() {
    assert_eq!(split_key_max("a.b.c.d", 2), ["a", "b.c.d"]);
    assert_eq!(split_key_max("a.b.", 3), ["a", "b"]);
    assert_eq!(split_key_max("a.b", 3), split_key("a.b"));
    assert_eq!(split_key_max("a.b", 1), ["a.b"]);
}

#[test]
fn underscore_of_ascii_words() {
    assert_eq!(underscore("HTMLParser"), "html_parser");
    assert_eq!(underscore("Admin::UserCard"), "admin/user_card");
    assert_eq!(underscore("A1B"), "a1_b");
}
