//! What is found in Ruby code.
use i18n_tasks_rs::scan::ruby::args::{process_arguments, resolve_scope, ArgVal, ScopeError};
use i18n_tasks_rs::scan::ruby::magic::{collect_translation_calls, magic_source};
use i18n_tasks_rs::scan::ruby::nodes::{
    constant_path_parts, is_i18n_receiver, CallSite, Expr, RubyNode,
};
use i18n_tasks_rs::scan::ruby::{scan, Comment};
use i18n_tasks_rs::lineindex::LineIndex;
use i18n_tasks_rs::scan::{scan_file, template, ParsedRuby, ScanConfig};
use i18n_tasks_rs::used::UsedKeys;

fn cfg() -> ScanConfig {
    ScanConfig {
        relative_roots: vec!["app/views".to_string(), "app/controllers".to_string()],
        relative_exclude_method_name_paths: vec![],
    }
}

fn text(s: &str) -> Expr {
    Expr::Str(s.to_string())
}

fn call(receiver: Option<Expr>, arguments: Vec<Expr>, start: usize) -> RubyNode {
    RubyNode::Call {
        method: b"t".to_vec(),
        call: CallSite { receiver, arguments, start, snippet: "t(..)".to_string() },
        body: vec![],
    }
}

fn keys(program: Vec<RubyNode>, path: &str) -> Vec<String> {
    let out = scan(b"x\ny\nz\n", &program, &vec![], path, &cfg());
    out.keys.into_iter().map(|(k, _)| k).collect()
}

#[test]
fn a_call_gives_its_key_and_its_place() {
    let out = scan(b"x\ny\nz\n", &vec![call(None, vec![text("a.b")], 2)], &vec![], "lib/a.rb", &cfg());
    assert_eq!(out.keys.len(), 1);
    let (key, occ) = &out.keys[0];
    assert_eq!(key, "a.b");
    assert_eq!((occ.pos, occ.line_num, occ.line_pos), (2, 2, 0));
    assert_eq!(occ.path, "lib/a.rb");
    assert_eq!(occ.snippet, "t(..)");
}

#[test]
fn only_i18n_may_receive_a_call() {
    let on = |name: &str| call(Some(Expr::Const(name.to_string())), vec![text("a")], 0);
    assert_eq!(keys(vec![on("I18n")], "lib/a.rb"), ["a"]);
    assert!(keys(vec![on("Foo")], "lib/a.rb").is_empty());
    assert!(is_i18n_receiver(&Expr::Const("I18n".to_string())));
    assert!(!is_i18n_receiver(&Expr::LocalRead));
}

#[test]
fn a_scope_comes_before_the_key() {
    let scoped = call(
        None,
        vec![
            text("c"),
            Expr::Keywords(vec![(
                Expr::Sym("scope".to_string()),
                Expr::Array(vec![Expr::Sym("a".to_string()), text("b")]),
            )]),
        ],
        0,
    );
    assert_eq!(keys(vec![scoped], "lib/a.rb"), ["a.b.c"]);
}

#[test]
fn a_scope_that_is_not_known_hides_the_key() {
    let kwargs = |v: ArgVal| vec![("scope".to_string(), v)];
    assert_eq!(resolve_scope(&vec![]), Ok(None));
    assert_eq!(
        resolve_scope(&kwargs(ArgVal::Str("a".to_string()))),
        Ok(Some("a".to_string()))
    );
    assert_eq!(resolve_scope(&kwargs(ArgVal::Unresolvable)), Err(ScopeError));
    let (args, kw) = process_arguments(&vec![
        text("k"),
        Expr::Keywords(vec![(Expr::Sym("count".to_string()), Expr::Int)]),
    ]);
    assert_eq!(args, vec![ArgVal::Str("k".to_string())]);
    assert_eq!(kw, vec![("count".to_string(), ArgVal::Int)]);
}

#[test]
fn an_interpolated_key_is_a_pattern_and_a_variable_is_opaque() {
    let pattern = call(
        None,
        vec![Expr::InterpolatedStr(vec![text("a."), Expr::Other, text(".b")])],
        0,
    );
    let opaque = call(None, vec![Expr::LocalRead], 2);
    let out = scan(b"x\ny\nz\n", &vec![pattern, opaque], &vec![], "lib/a.rb", &cfg());
    assert!(out.keys.is_empty());
    assert_eq!(out.patterns.len(), 1);
    assert_eq!(out.patterns[0].0, "a.*:.b");
    assert_eq!(out.opaque.len(), 1);
    let used = UsedKeys::gather(out, 1, 0);
    assert!(used.patterns.is_match("a.x.b"));
    assert!(!used.patterns.is_match("a.x"));
    assert!(!used.key_used("a.x.b"));
}

#[test]
fn a_key_without_any_text_is_opaque_and_no_pattern() {
    let bare = call(None, vec![Expr::InterpolatedStr(vec![Expr::Other])], 0);
    let out = scan(b"x\n", &vec![bare], &vec![], "lib/a.rb", &cfg());
    assert!(out.patterns.is_empty());
    assert_eq!(out.opaque.len(), 1);
}

#[test]
fn private_methods_resolve_no_relative_key_and_the_next_class_does() {
    let method = |at: usize| RubyNode::Def {
        name: "show".to_string(),
        start: at,
        end: at + 1,
        body: vec![call(None, vec![text(".x")], at)],
    };
    let class = |name: &str, body: Vec<RubyNode>| RubyNode::Class {
        name: name.to_string(),
        constant: Expr::Const(name.to_string()),
        start: 0,
        end: 4,
        body,
    };
    let private = RubyNode::Call {
        method: b"private".to_vec(),
        call: CallSite { receiver: None, arguments: vec![], start: 1, snippet: String::new() },
        body: vec![],
    };
    let program = vec![
        class("AController", vec![method(1), private, method(2)]),
        class("BController", vec![method(3)]),
    ];
    assert_eq!(
        keys(program, "app/controllers/a_controller.rb"),
        ["a.show.x", "b.show.x"]
    );
}

#[test]
fn a_relative_key_takes_the_path_of_its_class_and_method() {
    let class = RubyNode::Class {
        name: "HTMLPagesController".to_string(),
        constant: Expr::ConstPath(
            Some(Box::new(Expr::Const("Admin".to_string()))),
            Some("HTMLPagesController".to_string()),
        ),
        start: 0,
        end: 6,
        body: vec![RubyNode::Def {
            name: "show".to_string(),
            start: 1,
            end: 5,
            body: vec![call(None, vec![text(".title")], 2)],
        }],
    };
    assert_eq!(
        keys(vec![class], "app/controllers/admin/html_pages_controller.rb"),
        ["admin.html_pages.show.title"]
    );
    assert_eq!(
        constant_path_parts(&Expr::ConstPath(
            Some(Box::new(Expr::Const("A".to_string()))),
            Some("B".to_string())
        )),
        ["A", "B"]
    );
}

#[test]
fn a_relative_key_outside_a_root_is_dropped() {
    let method = RubyNode::Def {
        name: "show".to_string(),
        start: 0,
        end: 5,
        body: vec![call(None, vec![text(".title")], 2)],
    };
    assert!(keys(vec![method], "lib/a.rb").is_empty());
}

#[test]
fn a_magic_comment_uses_the_keys_it_names() {
    let comment = |text: &[u8], nested: Option<Vec<RubyNode>>| Comment {
        offset: 2,
        text: text.to_vec(),
        nested,
    };
    let nested = vec![call(None, vec![text("magic.key")], 0)];
    assert_eq!(collect_translation_calls(&nested).len(), 1);
    let out = scan(
        b"x\n# i18n-tasks-use t('magic.key')\n",
        &vec![],
        &vec![comment(b"# i18n-tasks-use t('magic.key')", Some(nested))],
        "lib/a.rb",
        &cfg(),
    );
    assert_eq!(out.keys.len(), 1);
    assert_eq!(out.keys[0].0, "magic.key");
    assert_eq!(out.keys[0].1.line_num, 2);
    assert_eq!(magic_source(b"# plain"), None);
    assert!(magic_source(b"# i18n-tasks-use t('a')").is_some());
    assert_eq!(magic_source(b"# i18n-tasks-use t('\xff')"), None);
}

#[test]
fn a_file_is_scanned_by_its_extension() {
    let parsed = |_: Vec<u8>| ParsedRuby {
        program: vec![call(None, vec![text("from.ruby")], 0)],
        comments: vec![],
    };
    let found = |path: &str, src: &[u8]| -> Vec<String> {
        scan_file(src, path, &cfg(), parsed)
            .unwrap()
            .keys
            .into_iter()
            .map(|(k, _)| k)
            .collect()
    };
    assert_eq!(found("lib/a.rb", b"t('x')"), ["from.ruby"]);
    assert_eq!(found("app/views/a.html.erb", b"<%= t('x') %>"), ["from.ruby"]);
    assert!(found("app/views/a.html.erb", b"no tags").is_empty());
    assert_eq!(found("app/views/a.html.slim", b"= t('x.y')"), ["x.y"]);
    assert_eq!(found("app/views/a.html.slim", b"= t('.y')"), ["a.y"]);
    assert_eq!(found("app/js/a.js", b"I18n.t(\"j.s\") // \xff"), ["j.s"]);
    let out = scan_file(b"I18n.t(\"j.s\") // \xff", "app/js/a.js", &cfg(), parsed).unwrap();
    assert_eq!(out.keys[0].1.snippet, "I18n.t(\"j.s\") // \u{fffd}");
}

#[test]
fn what_is_found_stands_at_a_place_of_the_file() {
    let src = b"first\n= t('x.y')\n";
    let out = template::scan(src, "app/views/a.slim", &cfg()).unwrap();
    let occ = &out.keys[0].1;
    assert_eq!(occ.path, "app/views/a.slim");
    assert!(occ.pos <= src.len());
    assert_eq!((occ.line_num, occ.line_pos), LineIndex::new(src).locate(occ.pos));
}
