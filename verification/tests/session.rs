//! Which locales a run covers.
use i18n_tasks_rs::data::store::Store;
use i18n_tasks_rs::session::{resolve_locales, valid_locale};
use i18n_tasks_rs::textmap::TextMap;

fn store(base: &str, locales: &[&str]) -> Store {
    Store {
        base_locale: base.to_string(),
        locales: locales.iter().map(|l| (*l).to_string()).collect(),
        trees: TextMap::new(),
        external: TextMap::new(),
        warnings: Vec::new(),
    }
}

fn resolve(requested: &[&str], store: &Store) -> Result<Vec<String>, String> {
    let requested: Vec<String> = requested.iter().map(|l| (*l).to_string()).collect();
    resolve_locales(&requested, store)
}

#[test]
fn no_locales_asked_for_means_every_configured_one() {
    let s = store("en", &["en", "de", "fr"]);
    assert_eq!(resolve(&[], &s), Ok(vec_of(&["en", "de", "fr"])));
    assert_eq!(resolve(&["all"], &s), Ok(vec_of(&["en", "de", "fr"])));
}

#[test]
fn base_stands_in_for_the_base_locale() {
    let s = store("en", &["en", "de"]);
    assert_eq!(resolve(&["base"], &s), Ok(vec_of(&["en"])));
}

#[test]
fn the_base_locale_is_swapped_to_the_front() {
    let s = store("en", &["en", "de", "fr"]);
    assert_eq!(
        resolve(&["de", "fr", "en"], &s),
        Ok(vec_of(&["en", "fr", "de"]))
    );
}

#[test]
fn duplicate_locales_coalesce_like_merged_gem_forests() {
    let s = store("en", &["en", "de"]);
    assert_eq!(
        resolve(&["de", "en", "de", "base"], &s),
        Ok(vec_of(&["en", "de"]))
    );
}

#[test]
fn an_invalid_locale_is_named_before_an_unknown_one() {
    let s = store("en", &["en"]);
    let err = resolve(&["-de"], &s).expect_err("`-de` is not a valid locale");
    assert!(err.contains("invalid locale `-de`"), "{err}");
}

#[test]
fn an_unknown_locale_lists_the_configured_ones() {
    let s = store("en", &["en", "de"]);
    let err = resolve(&["zz"], &s).expect_err("`zz` is not configured");
    assert!(err.contains("unknown locale `zz`"), "{err}");
    assert!(err.contains("en, de"), "{err}");
}

#[test]
fn valid_locale_is_the_gems_regex() {
    for ok in ["en", "en-GB", "zh_Hans", "en.x", "_x", "9"] {
        assert!(valid_locale(ok), "{ok} is valid in the gem");
    }
    for bad in ["", "-en", ".en", "en/de", "en de", "ü"] {
        assert!(!valid_locale(bad), "{bad} is invalid in the gem");
    }
}

fn vec_of(items: &[&str]) -> Vec<String> {
    items.iter().map(|l| (*l).to_string()).collect()
}
