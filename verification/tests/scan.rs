//! What the scanners find.
use i18n_tasks_rs::lineindex::LineIndex;
use i18n_tasks_rs::scan::erb::build_buffer;
use i18n_tasks_rs::scan::ruby::args::{keyword_hash, reduce, ArgVal};
use i18n_tasks_rs::scan::ruby::key::{
    full_key, is_all_wildcard, join_key, template_path, CallCtx, Caps,
};
use i18n_tasks_rs::scan::ruby::magic::{split_calls, strip_magic_prefix};
use i18n_tasks_rs::scan::ruby::nodes::{is_translation_name, CallSite, Expr, RubyNode};
use i18n_tasks_rs::scan::ruby::FileFacts;
use i18n_tasks_rs::scan::template::{replace_interpolations, scan};
use i18n_tasks_rs::scan::{ruby, scan_file, Locator, Occurrence, ScanConfig, SourceMap};

#[test]
fn source_map_translates_inside_and_between_segments() {
    let mut map = SourceMap::default();
    map.push(0, 5, 100);
    map.push(6, 4, 200);
    assert_eq!(map.translate(0), 100);
    assert_eq!(map.translate(4), 104);
    assert_eq!(map.translate(5), 200);
    assert_eq!(map.translate(7), 201);
    assert_eq!(map.translate(10), 204);
    assert_eq!(map.translate(99), 204);
}

#[test]
fn empty_source_map_is_the_identity() {
    assert_eq!(SourceMap::default().translate(42), 42);
}

fn buffer(src: &str) -> String {
    String::from_utf8(build_buffer(src.as_bytes()).unwrap().0).unwrap()
}

#[test]
fn concatenates_code_tags_into_one_buffer() {
    let src = "<%= link_to(x) do %>\n  <i></i>\n<% end %>\n";
    assert_eq!(buffer(src), " link_to(x) do \n end \n");
}

#[test]
fn skips_literal_and_empty_tags() {
    assert_eq!(buffer("<%% not code %>"), "");
    assert_eq!(buffer("<%   %>"), "");
}

#[test]
fn comment_tags_become_ruby_comment_lines() {
    let src = "<%# i18n-tasks-use t('a')\ni18n-tasks-use t('b') %>";
    assert_eq!(
        buffer(src),
        "# i18n-tasks-use t('a')\n#i18n-tasks-use t('b') \n"
    );
}

#[test]
fn positions_map_back_to_the_file() {
    let src = "<div><%= t('a') %></div>\n<% t('b') %>\n";
    let (buf, map) = build_buffer(src.as_bytes()).unwrap();
    let buf = String::from_utf8(buf).unwrap();
    let a = buf.find("t('a')").unwrap();
    let b = buf.find("t('b')").unwrap();
    assert_eq!(map.translate(a), src.find("t('a')").unwrap());
    assert_eq!(map.translate(b), src.find("t('b')").unwrap());
}

#[test]
fn a_file_with_no_code_tag_is_skipped() {
    let cfg = ScanConfig {
        relative_roots: vec!["app/views".into()],
        relative_exclude_method_name_paths: vec![],
    };
    let out = scan_file(
        b"<h1>Hello</h1>\n<%% literal %>\n",
        "app/views/x/index.html.erb",
        &cfg,
        |_| panic!("nothing to parse"),
    )
    .unwrap();
    assert!(out.keys.is_empty());
    assert!(out.patterns.is_empty());
    assert!(out.opaque.is_empty());
}

#[test]
fn comment_marker_maps_to_the_start_of_the_comment_text() {
    let src = "x\n<%# i18n-tasks-use t('a') %>\n";
    let (buf, map) = build_buffer(src.as_bytes()).unwrap();
    assert_eq!(String::from_utf8(buf).unwrap().as_bytes()[0], b'#');
    assert_eq!(map.translate(0), src.find(" i18n-tasks-use").unwrap());
}

fn cfg() -> ScanConfig {
    ScanConfig {
        relative_roots: vec!["app/views".into(), "app/controllers".into()],
        relative_exclude_method_name_paths: vec![],
    }
}

fn keys(src: &str) -> Vec<String> {
    let out = scan(
        src.as_bytes(),
        "app/views/x/index.html.slim",
        &cfg(),
    )
    .unwrap();
    out.keys.into_iter().map(|(k, _)| k).collect()
}

fn patterns(src: &str) -> Vec<String> {
    let out = scan(
        src.as_bytes(),
        "app/views/x/index.html.slim",
        &cfg(),
    )
    .unwrap();
    out.patterns.into_iter().map(|(k, _)| k).collect()
}

#[test]
fn matches_the_gems_pattern_cases() {
    for src in [
        r#"t(".a.b")"#,
        r#"t "a.b""#,
        "t 'a.b'",
        r#"t("a.b")"#,
        "t('a.b')",
        "t('a.b', :arg => val)",
        "t('a.b', arg: val)",
        "t :a_b",
        "t :'a.b'",
        r#"t :"a.b""#,
        "t(:ab)",
        "t(:'a.b')",
        r#"t(:"a.b")"#,
        r#"I18n.t("a.b")"#,
        r#"I18n.translate("a.b")"#,
    ] {
        assert!(!keys(src).is_empty(), "expected a key from {src}");
    }
}

#[test]
fn rejects_what_the_gem_rejects() {
    assert!(keys("t \"a.b'").is_empty());
    assert!(keys("t a.b").is_empty());
    assert!(keys(r#"theme_t "a.b.""#).is_empty());
    assert!(keys("Spree.t 'not_a_key'").is_empty());
    assert!(keys("| x't :fp_quote_before").is_empty());
    assert!(keys("| x-t :fp_dash_before").is_empty());
}

#[test]
fn resolves_scopes() {
    assert_eq!(keys(r#"= t :key, scope: "scope""#), ["scope.key"]);
    assert_eq!(keys("= t :key, scope: :scope"), ["scope.key"]);
    assert_eq!(keys("= t :key, :scope => :scope"), ["scope.key"]);
    assert_eq!(
        keys(r#"= t :key, :scope => :scope, default: "Default""#),
        ["scope.key"]
    );
    assert_eq!(keys("= t :key, :scope => [:a, :b]"), ["a.b.key"]);
    assert_eq!(keys("= t :key, :scope => [:a, :b] :c"), ["a.b.key"]);
    assert_eq!(keys("= t :key, :scope => [:a, :b], :c"), ["a.b.key"]);
    assert_eq!(
        keys("= t :key, scope: :a, name: t(:key, scope: :b)"),
        ["a.key", "b.key"]
    );
}

#[test]
fn drops_a_scope_that_is_not_a_literal() {
    for src in [
        "= t :key, scope: a",
        "= t :key, scope: []",
        "= t :key, scope: [a]",
        "= t :key, scope: [:x, [:y]]",
        "= t :key, scope: (a)",
        "= t key, scope: (a)",
        "= t key",
    ] {
        assert!(keys(src).is_empty(), "expected no key from {src}");
    }
}

#[test]
fn an_expression_with_a_scope_is_a_pattern() {
    assert_eq!(patterns(r#"= t key, scope: "scope""#), ["scope.*:"]);
    assert_eq!(patterns(r#"= t @key.m, scope: "scope""#), ["scope.*:"]);
    assert!(keys(r#"= t key, scope: "scope""#).is_empty());
}

#[test]
fn slim_line_continuation_is_tolerated() {
    assert_eq!(keys("= t(\\\n  'multiline.key')"), ["multiline.key"]);
    assert_eq!(keys("= t (\n  'spaced.key')"), ["spaced.key"]);
}

#[test]
fn skips_comment_lines_but_keeps_magic_comments() {
    assert!(keys("/ t(:fp_comment)").is_empty());
    assert_eq!(keys("/ i18n-tasks-use t(:fn_comment)"), ["fn_comment"]);
    assert_eq!(keys("#x = t 'not_a_comment'"), ["not_a_comment"]);
    assert_eq!(keys("-# i18n-tasks-use t(:kept)"), ["kept"]);
    assert!(keys("-# t(:dropped)").is_empty());
}

#[test]
fn resolves_relative_keys_against_the_template_path() {
    assert_eq!(keys("p = t '.title'"), ["x.index.title"]);
    let out = scan(
        b"= t '.title'",
        "app/views/x/_partial.html.slim",
        &cfg(),
    )
    .unwrap();
    assert_eq!(out.keys[0].0, "x.partial.title");
}

#[test]
fn a_trailing_dot_becomes_a_wildcard() {
    assert_eq!(keys("= t 'foo.'"), ["foo.:"]);
    assert_eq!(patterns("= t 'foo.'"), ["foo.*:"]);
}

#[test]
fn interpolated_keys_become_patterns() {
    assert_eq!(patterns(r#"p #{t "a.#{b}.c"}"#), ["a.*:.c"]);
    assert!(keys(r#"p #{t "a.#{b}.c"}"#).is_empty());
    let out = scan(
        r##"= t "#{b}""##.as_bytes(),
        "app/views/x/index.html.slim",
        &cfg(),
    )
    .unwrap();
    assert!(out.patterns.is_empty());
    assert_eq!(out.opaque.len(), 1);
}

#[test]
fn escaped_quotes_do_not_truncate_the_key() {
    assert_eq!(keys(r#"= t("say \"hi\"") + t('real.key')"#), ["real.key"]);
}

#[test]
fn several_calls_in_one_line() {
    assert_eq!(
        keys(r#"p #{t('ca.a')} #{t 'ca.b'} #{t "ca.c"}"#),
        ["ca.a", "ca.b", "ca.c"]
    );
}

#[test]
fn occurrence_reports_the_call_position() {
    let src = "x\np = I18n.t 'a.b'\n";
    let out = scan(
        src.as_bytes(),
        "app/views/x/index.html.slim",
        &cfg(),
    )
    .unwrap();
    let occ = &out.keys[0].1;
    assert_eq!(occ.line_num, 2);
    assert_eq!(occ.pos, src.find("t 'a.b'").unwrap());
    assert_eq!(occ.snippet, "p = I18n.t 'a.b'");
}

#[test]
fn keys_may_hold_spaces_slashes_and_any_script() {
    for key in [
        "category/product",
        "key with spaces",
        "привет мир 你好 世界",
        "product カテゴリー with スペース",
        "項目123 テスト 456",
        "مرحبا بالعالم",
        "Hello مرحبا 世界",
    ] {
        assert_eq!(keys(&format!("t('{key}')")), vec![key], "{key}");
    }
}

#[test]
fn a_key_the_gem_would_reject_yields_nothing() {
    assert!(keys("t('')").is_empty());
    assert!(keys("t('a .b')").is_empty());
    assert!(keys("t('a. b')").is_empty());
    assert!(keys("t(' a')").is_empty());
}

#[test]
fn only_the_scope_argument_is_read() {
    assert_eq!(keys("= t :key, :scope => [:a, :b] :c"), vec!["a.b.key"]);
    assert_eq!(keys("= t :key, :scope => [:a, :b], :c"), vec!["a.b.key"]);
    assert_eq!(keys("t('key', scope: 'a.b', count: 1)"), vec!["a.b.key"]);
    assert_eq!(keys("t('key', count: 1, scope: :x)"), vec!["key"]);
}

#[test]
fn braces_inside_an_interpolation_do_not_end_it() {
    assert_eq!(patterns("t(\"a.#{h{k}}.z\")"), vec!["a.*:.z"]);
    assert_eq!(patterns("t(\"a.#{h[:k]}\")"), vec!["a.*:"]);
}

#[test]
fn nested_calls_each_keep_their_own_scope() {
    assert_eq!(
        keys("= t :key, scope: :a, name: t(:key, scope: :b)"),
        vec!["a.key", "b.key"]
    );
    assert_eq!(
        keys("= t :key, scope: [:a, :a], name: t(:key, scope: :b)"),
        vec!["a.a.key", "b.key"]
    );
}

#[test]
fn replaces_nested_interpolations() {
    assert_eq!(replace_interpolations("a.#{h[:k]}.b"), "a.*:.b");
    assert_eq!(replace_interpolations("a.#{x}#{y}"), "a.*:*:");
    assert_eq!(replace_interpolations("plain"), "plain");
}

#[test]
fn ruby_magic_comment_prefix() {
    assert_eq!(strip_magic_prefix("# i18n-tasks-use t('a')").as_deref(), Some("t('a')"));
    assert_eq!(strip_magic_prefix("#i18n-tasks-use t('a')").as_deref(), Some("t('a')"));
    assert_eq!(strip_magic_prefix("#   i18n-tasks-use   t('a')").as_deref(), Some("t('a')"));
    assert_eq!(strip_magic_prefix("# not a magic comment").as_deref(), None);
    assert_eq!(strip_magic_prefix("# i18n-tasks-uset('a')").as_deref(), None);
}

#[test]
fn ruby_a_candidate_context_with_no_path_resolves_to_nothing() {
    let ctx = CallCtx {
        path: Vec::new(),
        caps: Caps {
            relative: true,
            candidate: true,
        },
    };
    assert_eq!(full_key(".rel", None, &ctx, false), None);
    assert_eq!(
        full_key("abs", None, &ctx, false),
        Some(vec!["abs".to_string()])
    );
    let ctx = CallCtx {
        path: vec!["events".into(), "create".into()],
        caps: Caps {
            relative: true,
            candidate: true,
        },
    };
    assert_eq!(
        full_key(".rel", None, &ctx, false),
        Some(vec![
            "events.create.rel".to_string(),
            "events.rel".to_string()
        ])
    );
}

#[test]
fn ruby_splits_several_calls_in_one_comment() {
    assert_eq!(split_calls("t('a') t('b')"), vec!["t('a')", "t('b')"]);
    assert_eq!(split_calls("t('a')"), vec!["t('a')"]);
    assert_eq!(split_calls(""), vec![""]);
    assert_eq!(split_calls("t('a', scope: :x)"), vec!["t('a', scope: :x)"]);
    assert_eq!(
        split_calls("t('a', scope: :x) t('b')"),
        vec!["t('a', scope: :x)", "t('b')"]
    );
}

#[test]
fn ruby_template_paths_drop_every_extension_and_the_partial_underscore() {
    assert_eq!(
        template_path("app/views/movies/show.html.slim", "app/views"),
        vec!["movies", "show"]
    );
    assert_eq!(
        template_path("app/views-mobile/movies/show.html.slim", "app/views-mobile"),
        vec!["movies", "show"]
    );
    assert_eq!(
        template_path("app/views/application/_event.html.erb", "app/views"),
        vec!["application", "event"]
    );
    assert_eq!(
        template_path("app/views/index.html.erb", "app/views"),
        vec!["index"]
    );
}

#[test]
fn ruby_a_path_outside_the_root_has_no_template_path() {
    assert!(template_path("lib/tasks/thing.rb", "app/views").is_empty());
    assert!(template_path("app/view/x.html.erb", "app/views").is_empty());
}

#[test]
fn ruby_all_wildcard_patterns_are_rejected() {
    assert!(is_all_wildcard("*:"));
    assert!(is_all_wildcard("*:.*:"));
    assert!(is_all_wildcard(".*:."));
    assert!(!is_all_wildcard("hash.*:"));
}

#[test]
fn ruby_join_key_collapses_double_dots() {
    assert_eq!(join_key(&vec!["a".into(), "b".into()]), "a.b");
    assert_eq!(join_key(&vec!["a.".into(), "b".into()]), "a.b");
}

#[test]
fn key_a_candidate_context_with_no_path_resolves_to_nothing() {
    let ctx = CallCtx {
        path: Vec::new(),
        caps: Caps {
            relative: true,
            candidate: true,
        },
    };
    assert_eq!(full_key(".rel", None, &ctx, false), None);
    assert_eq!(
        full_key("abs", None, &ctx, false),
        Some(vec!["abs".to_string()])
    );
    let ctx = CallCtx {
        path: vec!["events".to_string(), "create".to_string()],
        caps: Caps {
            relative: true,
            candidate: true,
        },
    };
    assert_eq!(
        full_key(".rel", None, &ctx, false),
        Some(vec![
            "events.create.rel".to_string(),
            "events.rel".to_string()
        ])
    );
}

#[test]
fn key_template_paths_drop_every_extension_and_the_partial_underscore() {
    assert_eq!(
        template_path("app/views/movies/show.html.slim", "app/views"),
        vec!["movies", "show"]
    );
    assert_eq!(
        template_path("app/views-mobile/movies/show.html.slim", "app/views-mobile"),
        vec!["movies", "show"]
    );
    assert_eq!(
        template_path("app/views/application/_event.html.erb", "app/views"),
        vec!["application", "event"]
    );
    assert_eq!(
        template_path("app/views/index.html.erb", "app/views"),
        vec!["index"]
    );
}

#[test]
fn key_a_path_outside_the_root_has_no_template_path() {
    assert!(template_path("lib/tasks/thing.rb", "app/views").is_empty());
    assert!(template_path("app/view/x.html.erb", "app/views").is_empty());
}

#[test]
fn key_all_wildcard_patterns_are_rejected() {
    assert!(is_all_wildcard("*:"));
    assert!(is_all_wildcard("*:.*:"));
    assert!(is_all_wildcard(".*:."));
    assert!(!is_all_wildcard("hash.*:"));
}

#[test]
fn key_join_key_collapses_double_dots() {
    assert_eq!(join_key(&vec!["a".into(), "b".into()]), "a.b");
    assert_eq!(join_key(&vec!["a.".into(), "b".into()]), "a.b");
}

#[test]
fn magic_magic_comment_prefix() {
    assert_eq!(strip_magic_prefix("# i18n-tasks-use t('a')").as_deref(), Some("t('a')"));
    assert_eq!(strip_magic_prefix("#i18n-tasks-use t('a')").as_deref(), Some("t('a')"));
    assert_eq!(strip_magic_prefix("#   i18n-tasks-use   t('a')").as_deref(), Some("t('a')"));
    assert_eq!(strip_magic_prefix("# not a magic comment").as_deref(), None);
    assert_eq!(strip_magic_prefix("# i18n-tasks-uset('a')").as_deref(), None);
}

#[test]
fn magic_splits_several_calls_in_one_comment() {
    assert_eq!(split_calls("t('a') t('b')"), vec!["t('a')", "t('b')"]);
    assert_eq!(split_calls("t('a')"), vec!["t('a')"]);
    assert_eq!(split_calls(""), vec![""]);
    assert_eq!(split_calls("t('a', scope: :x)"), vec!["t('a', scope: :x)"]);
    assert_eq!(
        split_calls("t('a', scope: :x) t('b')"),
        vec!["t('a', scope: :x)", "t('b')"]
    );
}

#[test]
fn only_the_t_family_names_are_translation_calls() {
    for name in [&b"t"[..], b"t!", b"translate", b"translate!"] {
        assert!(
            is_translation_name(name),
            "{} should be a translation call",
            String::from_utf8_lossy(name)
        );
    }
    for name in [
        &b"tt"[..],
        b"T",
        b"Translate",
        b"translate?",
        b"",
        b"private",
    ] {
        assert!(
            !is_translation_name(name),
            "{} should not be a translation call",
            String::from_utf8_lossy(name)
        );
    }
}

/// `class NAME; def show; t('.x'); end; end`, at the given offset.
fn controller(name: &str, at: usize) -> RubyNode {
    RubyNode::Class {
        name: name.to_string(),
        constant: Expr::Const(name.to_string()),
        start: at,
        end: at + 50,
        body: vec![RubyNode::Def {
            name: "show".to_string(),
            start: at + 20,
            end: at + 45,
            body: vec![RubyNode::Call {
                method: b"t".to_vec(),
                call: CallSite {
                    receiver: None,
                    arguments: vec![Expr::Str(".x".to_string())],
                    start: at + 30,
                    snippet: "t('.x')".to_string(),
                },
                body: vec![],
            }],
        }],
    }
}

#[test]
fn the_relative_root_is_looked_up_once_per_file() {
    let cfg = ScanConfig {
        relative_roots: vec!["app/views".to_string(), "app/controllers".to_string()],
        relative_exclude_method_name_paths: Vec::new(),
    };
    let path = "app/controllers/books_controller.rb";
    let bytes = vec![b' '; 2000];
    let index = LineIndex::new(&bytes);
    let one = vec![controller("BooksController", 0)];
    let many: Vec<RubyNode> = (0..20)
        .map(|i| controller(&format!("C{i}Controller"), i * 60))
        .collect();
    let whole = ruby::scan(&bytes, &many, &vec![], path, &cfg);
    // The one lookup. The roots are gone when the classes are walked.
    let facts = FileFacts::new(path, &cfg);
    drop(cfg);
    assert!(facts.under_root);
    let scan_one = ruby::scan_buffer(&one, &vec![], &facts, Locator::direct(&index));
    let scan_many = ruby::scan_buffer(&many, &vec![], &facts, Locator::direct(&index));
    assert_eq!(scan_one.keys.len(), 1);
    assert_eq!(scan_many.keys.len(), 20);
    assert_eq!(scan_one.keys[0].0, "books.show.x");
    assert_eq!(scan_many.keys[7].0, "c7.show.x");
    let keys = |keys: &[(String, Occurrence)]| -> Vec<String> {
        keys.iter().map(|(k, _)| k.clone()).collect()
    };
    assert_eq!(keys(&scan_many.keys), keys(&whole.keys));
}

fn text(s: &str) -> Expr {
    Expr::Str(s.to_string())
}

#[test]
fn reduce_maps_each_node_kind_to_its_own_argval() {
    assert_eq!(reduce(&text("a")), ArgVal::Str("a".into()));
    assert_eq!(reduce(&Expr::Sym("a".into())), ArgVal::Str("a".into()));
    assert_eq!(reduce(&text("a\nb")), ArgVal::Str("a\nb".into()));
    assert_eq!(reduce(&Expr::Int), ArgVal::Int);
    assert_eq!(
        reduce(&Expr::Array(vec![Expr::Sym("a".into()), text("b")])),
        ArgVal::Arr(vec![ArgVal::Str("a".into()), ArgVal::Str("b".into())])
    );
    assert_eq!(
        reduce(&Expr::InterpolatedStr(vec![text("a."), Expr::Other, text(".c")])),
        ArgVal::Pattern("a.*:.c".into())
    );
    assert_eq!(
        reduce(&Expr::InterpolatedSym(vec![text("a."), Expr::Other])),
        ArgVal::Pattern("a.*:".into())
    );
    let path = Expr::ConstPath(Some(Box::new(Expr::Const("X".into()))), Some("Y".into()));
    for read in [Expr::LocalRead, Expr::Const("X".into()), path, Expr::InstanceRead] {
        assert_eq!(reduce(&read), ArgVal::Unresolvable);
    }
    assert_eq!(reduce(&Expr::Other), ArgVal::Nil);
    assert_eq!(
        reduce(&Expr::Array(vec![Expr::Keywords(vec![(Expr::Sym("a".into()), Expr::Int)])])),
        ArgVal::Arr(vec![ArgVal::Hash(vec![("a".to_string(), ArgVal::Int)])])
    );
    let shorthand = vec![(Expr::Sym("scope".into()), Expr::Implicit(Box::new(Expr::LocalRead)))];
    assert_eq!(
        keyword_hash(&shorthand),
        vec![("scope".to_string(), ArgVal::Unresolvable)]
    );
}

#[test]
fn a_root_is_matched_by_whole_directories() {
    let cfg = ScanConfig {
        relative_roots: vec!["app/views".into(), "app/views/admin/".into()],
        relative_exclude_method_name_paths: vec![],
    };
    assert_eq!(cfg.matching_root("webapp/views/x.html.erb"), None);
    assert_eq!(cfg.matching_root("app/views-old/x.html.erb"), None);
    assert_eq!(cfg.matching_root("app/views/x.html.erb"), Some("app/views"));
    assert_eq!(cfg.matching_root("/project/app/views/x.html.erb"), Some("app/views"));
    assert_eq!(cfg.matching_root("app\\views\\x.html.erb"), Some("app/views"));
    assert_eq!(cfg.matching_root("app/views/admin/x.html.erb"), Some("app/views/admin/"));
}

#[test]
fn a_root_is_stripped_by_whole_directories() {
    assert!(template_path("webapp/views/x.html.erb", "app/views").is_empty());
    assert_eq!(
        template_path("app/views/webapp/views/_x.html.erb", "app/views"),
        ["webapp", "views", "x"]
    );
    assert_eq!(template_path("app/views/a/app/views/x.slim", "app/views/"), ["x"]);
}
