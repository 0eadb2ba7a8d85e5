//! How key patterns match.
use i18n_tasks_rs::pattern::{Pattern, PatternSet};

fn m(pat: &str, key: &str) -> bool {
    Pattern::compile(pat).is_match(key)
}

#[test]
fn star_as_suffix() {
    assert!(m("devise.*", "devise.some.key"));
}

#[test]
fn star_as_prefix() {
    assert!(m("*.some.key", "devise.some.key"));
}

#[test]
fn star_as_infix() {
    assert!(m("*.some.*", "devise.some.key"));
}

#[test]
fn star_matches_multiple_namespaces() {
    assert!(m("a.*.e*", "a.b.c.d.eeee"));
}

#[test]
fn colon_as_suffix() {
    assert!(m("a.b.:", "a.b.c"));
    assert!(!m("a.b.:", "a.b.c.d"));
}

#[test]
fn colon_as_prefix() {
    assert!(m(":.b.c", "a.b.c"));
    assert!(!m(":.b.c", "x.a.b.c"));
}

#[test]
fn colon_as_infix() {
    assert!(m("a.:.c", "a.b.c"));
    assert!(!m("a.:.c", "a.b.x.c"));
}

#[test]
fn partial_seg_as_suffix() {
    assert!(m("a.b.pre-*:-post", "a.b.pre-c-post"));
    assert!(!m("a.b.pre-*:-post", "a.b.pre-c.-post"));
}

#[test]
fn partial_seg_as_prefix() {
    assert!(m("pre-*:-post.b.c", "pre-a-post.b.c"));
    assert!(!m("pre-*:-post.b.c", "pre-.a-post.b.c"));
}

#[test]
fn partial_seg_as_infix() {
    assert!(m("a.pre-*:-post.c", "a.pre-b-post.c"));
    assert!(!m("a.pre-*:-post.c", "a.pre-b.-post.c"));
}

#[test]
fn sets_match() {
    assert!(m("a.{x,y}.b", "a.x.b"));
    assert!(m("a.{x,y}.b", "a.y.b"));
    assert!(!m("a.{x,y}.b", "a.z.b"));
}

#[test]
fn sets_support_colon() {
    assert!(m("a.{:}.c", "a.b.c"));
    assert!(!m("a.{:}.c", "a.b.x.c"));
}

#[test]
fn sets_support_star() {
    assert!(m("a.{*}.c", "a.b.c"));
    assert!(m("a.{*}.c", "a.b.x.y.c"));
}

#[test]
fn sets_capture() {
    let p = Pattern::compile("a.{x,y}.{:}");
    let key = "a.x.c";
    let caps = p.captures(key).unwrap();
    let got: Vec<&str> = caps
        .iter()
        .map(|c| {
            let (s, e) = c.unwrap();
            &key[s..e]
        })
        .collect();
    assert_eq!(got, vec!["x", "c"]);
}

#[test]
fn empty_set_matches_nothing() {
    let empty: [String; 0] = [];
    assert!(!PatternSet::new(&empty).is_match("a.b"));
    assert!(PatternSet::new(&empty).is_empty());
}

#[test]
fn colon_needs_segment_boundaries() {
    assert!(!m(":x", "aax"));
    assert!(m(":.x", "aa.x"));
}

#[test]
fn captures_feed_the_pattern_router() {
    let p = Pattern::compile("{activemodel, activerecord, views}.*");
    let key = "activerecord.models.user";
    let caps = p.captures(key).unwrap();
    assert_eq!(caps.len(), 1);
    let (s, e) = caps[0].unwrap();
    assert_eq!(&key[s..e], "activerecord");
}

#[test]
fn no_wildcard_matches_only_itself() {
    for key in ["a", "a.b", "a.b.c", "x.y.z.w"] {
        let p = Pattern::compile(key);
        assert!(p.is_match(key));
        assert!(!p.is_match(&format!("{key}.extra")));
        assert!(!p.is_match(&format!("extra.{key}")));
    }
}

#[test]
fn a_star_that_cannot_be_satisfied_fails() {
    assert!(!m("a.*.zzz", "a.b.c"));
    assert!(!m("a.*", "b.c"));
    assert!(m("a.*b", "a.b"));
}

#[test]
fn a_whole_segment_must_start_on_a_boundary() {
    assert!(!m("a:", "ab"));
    assert!(!m("a:", "a.b"));
    assert!(m("a.:", "a.b"));
    assert!(!m("a.:", "a."));
    assert!(!m(":", ""));
}

#[test]
fn a_pattern_set_reports_the_first_match_with_its_captures() {
    let set = PatternSet::new(&["nope.*".to_string(), "{a,b}.*".to_string()]);
    assert!(!set.is_empty());
    let key = "b.deep.key";
    let (pat, caps) = set.first_match(key).expect("the second pattern matches");
    assert_eq!(pat.source, "{a,b}.*");
    let (s, e) = caps[0].unwrap();
    assert_eq!(&key[s..e], "b");
    assert!(set.first_match("elsewhere.key").is_none());
}

#[test]
fn unclosed_brace_is_literal() {
    assert!(m("a{b", "a{b"));
}

#[test]
fn backtracking_captures_keep_their_priority() {
    let caps = |pat: &str, key: &str| -> Vec<String> {
        Pattern::compile(pat)
            .captures(key)
            .expect("the pattern matches")
            .iter()
            .map(|c| {
                let (s, e) = c.expect("the group took part in the match");
                key[s..e].to_string()
            })
            .collect()
    };
    assert_eq!(caps("{*}.{*}", "a.b.c.d"), ["a.b.c", "d"]);
    assert_eq!(caps("*{a,b}*{c,d}*", "aaa.bbb.ccc"), ["b", "c"]);
    assert_eq!(caps("*{a,b}*{c,d}*", "cad"), ["a", "d"]);
}

#[test]
fn a_pathological_pattern_stays_fast() {
    let p = Pattern::compile("*a*a*a*a*a*a*a*a*z");
    let key = "a".repeat(40);
    let t = std::time::Instant::now();
    assert!(!p.is_match(&key));
    let took = t.elapsed();
    assert!(
        took < std::time::Duration::from_secs(1),
        "matching took {took:?}, so the search is still exponential"
    );
}

#[test]
fn real_project_ignore_patterns() {
    assert!(m(
        "{activerecord, activemodel, number}.*",
        "activerecord.models.user"
    ));
    assert!(m("badges.{alt,tooltip}.*", "badges.alt.verified"));
    assert!(!m("badges.{alt,tooltip}.*", "badges.title.verified"));
    assert!(m(
        "categories.details.*.footer_text_html",
        "categories.details.roofing.footer_text_html"
    ));
    assert!(m(
        "cost_estimations_v3.categories.*.questions.*",
        "cost_estimations_v3.categories.x.questions.y.z"
    ));
    assert!(m("sort_ascending_by_*", "sort_ascending_by_price"));
    assert!(m("{refresh_quote, quote_now}", "quote_now"));
}

#[test]
fn wildcards_between_plain_texts() {
    assert!(m("a*z", "az") && m("a*z", "a.b.z") && !m("a*z", "a.b"));
    assert!(m("a*:z", "aüz") && !m("a*:z", "az") && !m("a*:z", "a.z"));
    assert!(m("a.:", "a.b") && !m("a.:", "a.b.c") && !m("a.:", "a."));
}

#[test]
fn groups_stand_in_a_row() {
    let caps = Pattern::compile("{a,b}.{*}.{c,d}").captures("b.x.y.d").unwrap();
    assert_eq!(caps, vec![Some((0, 1)), Some((2, 5)), Some((6, 7))]);
}
