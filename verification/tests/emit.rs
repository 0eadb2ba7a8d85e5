//! How locale files are written.
use i18n_tasks_rs::data::emit::scalar::{format_key, format_scalar};
use i18n_tasks_rs::data::emit::{emit_locale, Tree};
use i18n_tasks_rs::data::load::Value;

fn tree(pairs: &[(&str, Value)]) -> Tree {
    let mut t = Tree::new();
    for (k, v) in pairs {
        t.insert(k, v.clone());
    }
    t
}

fn emit(pairs: &[(&str, Value)]) -> String {
    let mut t = tree(pairs);
    t.sort();
    emit_locale("en", &t)
}

fn s(v: &str) -> Value {
    Value::Str(v.into())
}

fn scalar(v: &str) -> String {
    format_scalar(&s(v), 1)
}

#[test]
fn emit_an_insert_after_a_sort_finds_the_entries_the_sort_moved() {
    let mut t = tree(&[("b", s("B")), ("a", s("A")), ("m.q", s("Q"))]);
    t.sort();
    t.insert("b", s("B2"));
    t.insert("m.p", s("P"));
    assert_eq!(
        emit_locale("en", &t),
        "---\nen:\n  a: A\n  b: B2\n  m:\n    q: Q\n    p: P\n"
    );
}

#[test]
fn emit_emits_a_nested_document() {
    assert_eq!(
        emit(&[("b.c", s("x")), ("a", s("hi"))]),
        "---\nen:\n  a: hi\n  b:\n    c: x\n"
    );
}

#[test]
fn emit_sorts_every_level_byte_wise() {
    let out = emit(&[("a.z", s("1")), ("a.B", s("2")), ("a.a", s("3"))]);
    assert_eq!(out, "---\nen:\n  a:\n    B: '2'\n    a: '3'\n    z: '1'\n");
}

#[test]
fn emit_keep_order_skips_the_sort() {
    let t = tree(&[("z", s("1")), ("a", s("2"))]);
    assert_eq!(emit_locale("en", &t), "---\nen:\n  z: '1'\n  a: '2'\n");
}

#[test]
fn emit_a_map_beats_a_leaf_at_the_same_path() {
    let mut t = tree(&[("a", s("leaf")), ("a.b", s("child"))]);
    t.sort();
    assert_eq!(emit_locale("en", &t), "---\nen:\n  a:\n    b: child\n");
    let mut t = tree(&[("a.b", s("child")), ("a", s("leaf"))]);
    t.sort();
    assert_eq!(emit_locale("en", &t), "---\nen:\n  a:\n    b: child\n");
}

#[test]
fn emit_q1_empty_string() {
    assert_eq!(scalar(""), "''");
}

#[test]
fn emit_q2_non_word_first_character() {
    assert_eq!(scalar("%{count} items"), "\"%{count} items\"");
    assert_eq!(scalar("-dash"), "\"-dash\"");
    assert_eq!(scalar("#hash"), "\"#hash\"");
    assert_eq!(scalar(" lead"), "\" lead\"");
    assert_eq!(scalar("«quoted»"), "\"«quoted»\"");
    assert_eq!(scalar("Ärzte"), "Ärzte");
    assert_eq!(scalar("5% off"), "5% off");
    assert_eq!(scalar("«a\"b»"), "«a\"b»");
    assert_eq!(scalar("<a href=\"x\">y</a>"), "<a href=\"x\">y</a>");
    assert_eq!(scalar("#a\"b"), "'#a\"b'");
}

#[test]
fn emit_q3_trailing_space_or_tab() {
    assert_eq!(scalar("trail "), "'trail '");
    assert_eq!(scalar("a\tb"), "\"a\\tb\"");
}

#[test]
fn emit_q4_colon_space_or_trailing_colon() {
    assert_eq!(scalar("a: b"), "'a: b'");
    assert_eq!(scalar("note:"), "'note:'");
    assert_eq!(scalar("a:b"), "a:b");
}

#[test]
fn emit_q5_space_hash() {
    assert_eq!(scalar("a #b"), "'a #b'");
    assert_eq!(scalar("a#b"), "a#b");
}

#[test]
fn emit_q6_values_yaml_would_not_read_as_strings() {
    for v in [
        "true",
        "false",
        "yes",
        "no",
        "on",
        "off",
        "y",
        "n",
        "null",
        "123",
        "1.5",
        "0x1f",
        "010",
        "089",
        "1_000",
        "1:30",
        ".inf",
        "2020-01-01",
        "<<",
        "=",
    ] {
        assert_ne!(scalar(v), v, "{v} must be quoted");
    }
    for v in ["1.2.3", "e5", "12a", "0x", "1-2"] {
        assert_eq!(scalar(v), v, "{v} must stay plain");
    }
}

#[test]
fn emit_q7_control_characters() {
    assert_eq!(scalar("a\u{7}b"), "\"a\\x07b\"");
    assert_eq!(scalar("a\rb"), "\"a\\rb\"");
}

#[test]
fn emit_non_bmp_characters_stay_literal() {
    assert_eq!(scalar("😀 emoji"), "\"😀 emoji\"");
    assert_eq!(scalar("emoji 😀"), "emoji 😀");
}

#[test]
fn emit_single_quotes_double_up() {
    assert_eq!(scalar("'quoted'"), "\"'quoted'\"");
    assert_eq!(scalar("it's: here"), "'it''s: here'");
}

#[test]
fn emit_multi_line_values_use_block_scalars() {
    assert_eq!(scalar("hello\nworld\n"), "|\n    hello\n    world");
    assert_eq!(scalar("hello\nworld"), "|-\n    hello\n    world");
    assert_eq!(scalar("hello\nworld\n\n"), "|+\n    hello\n    world\n");
    assert_eq!(scalar("hi\n"), "|\n    hi");
}

#[test]
fn emit_a_blank_line_inside_a_block_carries_no_indentation() {
    let out = emit(&[("a", s("one\n\ntwo\n"))]);
    assert_eq!(out, "---\nen:\n  a: |\n    one\n\n    two\n");
    assert!(!out.lines().any(|l| l.ends_with(' ')));
}

#[test]
fn emit_unsafe_multi_line_values_are_double_quoted() {
    assert_eq!(scalar("  indented\nnext\n"), "\"  indented\\nnext\\n\"");
    assert_eq!(scalar("tail \nnext\n"), "\"tail \\nnext\\n\"");
}

#[test]
fn emit_sequences_sit_at_the_indent_of_their_key() {
    assert_eq!(
        emit(&[(
            "order",
            Value::List(vec![
                Value::Plain(":day".into()),
                Value::Plain(":month".into())
            ])
        )]),
        "---\nen:\n  order:\n  - :day\n  - :month\n"
    );
}

#[test]
fn emit_a_map_inside_a_sequence_lines_up_under_the_dash() {
    let item = Value::Table(vec![
        ("title".into(), s("Roof")),
        ("cost".into(), Value::Plain("4".into())),
    ]);
    assert_eq!(
        emit(&[("list", Value::List(vec![item]))]),
        "---\nen:\n  list:\n  - title: Roof\n    cost: 4\n"
    );
}

#[test]
fn emit_a_sequence_inside_a_sequence() {
    let inner = Value::List(vec![Value::Plain("1".into()), Value::Plain("2".into())]);
    assert_eq!(
        emit(&[("m", Value::List(vec![inner]))]),
        "---\nen:\n  m:\n  - - 1\n    - 2\n"
    );
}

#[test]
fn emit_a_block_scalar_inside_a_sequence() {
    assert_eq!(
        emit(&[("m", Value::List(vec![s("a\nb\n")]))]),
        "---\nen:\n  m:\n  - |\n    a\n    b\n"
    );
}

#[test]
fn emit_nil_and_empty_collections_inside_a_sequence() {
    assert_eq!(
        emit(&[(
            "m",
            Value::List(vec![
                Value::Nil,
                Value::List(vec![]),
                Value::Table(vec![]),
                s("x"),
            ])
        )]),
        "---\nen:\n  m:\n  -\n  - []\n  - {}\n  - x\n"
    );
}

#[test]
fn emit_a_map_nested_inside_a_map_inside_a_sequence() {
    let inner = Value::Table(vec![("b".into(), s("B")), ("c".into(), s("C"))]);
    let item = Value::Table(vec![("a".into(), inner)]);
    assert_eq!(
        emit(&[("list", Value::List(vec![item]))]),
        "---\nen:\n  list:\n  - a:\n      b: B\n      c: C\n"
    );
}

#[test]
fn emit_a_sequence_under_a_key_inside_a_sequence_item() {
    let item = Value::Table(vec![("tags".into(), Value::List(vec![s("a"), s("b")]))]);
    assert_eq!(
        emit(&[("list", Value::List(vec![item]))]),
        "---\nen:\n  list:\n  - tags:\n    - a\n    - b\n"
    );
}

#[test]
fn emit_a_double_quoted_value_escapes_the_quote_and_the_backslash() {
    assert_eq!(scalar(" say \"hi\"\nx"), "\" say \\\"hi\\\"\\nx\"");
    assert_eq!(scalar(" a\\b\nc"), "\" a\\\\b\\nc\"");
    assert_eq!(scalar("tab\there\nx"), "\"tab\\there\\nx\"");
}

#[test]
fn emit_a_key_that_needs_double_quotes_gets_them() {
    assert_eq!(format_key("a\tb"), "\"a\\tb\"");
    assert_eq!(format_key("plain"), "plain");
    assert_eq!(format_key("has space"), "has space");
}

#[test]
fn emit_a_bool_and_a_nil_leaf_keep_their_written_form() {
    assert_eq!(format_scalar(&Value::Bool(true), 0), "true");
    assert_eq!(format_scalar(&Value::Bool(false), 0), "false");
    assert_eq!(format_scalar(&Value::Nil, 0), "");
    assert_eq!(format_scalar(&Value::Plain("1.50".into()), 0), "1.50");
}

#[test]
fn emit_a_later_leaf_replaces_an_earlier_one_at_the_same_path() {
    assert_eq!(
        emit(&[("a", s("first")), ("a", s("second"))]),
        "---\nen:\n  a: second\n"
    );
}

#[test]
fn emit_empty_collections_and_nil() {
    assert_eq!(
        emit(&[
            ("a", Value::Nil),
            ("b", Value::List(vec![])),
            ("c", Value::Table(vec![])),
        ]),
        "---\nen:\n  a:\n  b: []\n  c: {}\n"
    );
}

#[test]
fn emit_an_empty_locale_emits_an_empty_mapping() {
    assert_eq!(emit_locale("en", &Tree::new()), "---\nen: {}\n");
}

#[test]
fn emit_keys_follow_the_same_quoting_rules() {
    assert_eq!(
        emit(&[("true", s("a")), ("123", s("b")), ("ok", s("c"))]),
        "---\nen:\n  '123': b\n  ok: c\n  'true': a\n"
    );
}

#[test]
fn emit_deep_nesting() {
    let out = emit(&[("a.b.c.d.e.f.g.h.i.j", s("deep"))]);
    assert!(out.ends_with("                    j: deep\n"), "{out}");
}

#[test]
fn mod_an_insert_after_a_sort_finds_the_entries_the_sort_moved() {
    let mut t = tree(&[("b", s("B")), ("a", s("A")), ("m.q", s("Q"))]);
    t.sort();
    t.insert("b", s("B2"));
    t.insert("m.p", s("P"));
    assert_eq!(
        emit_locale("en", &t),
        "---\nen:\n  a: A\n  b: B2\n  m:\n    q: Q\n    p: P\n"
    );
}

#[test]
fn mod_emits_a_nested_document() {
    assert_eq!(
        emit(&[("b.c", s("x")), ("a", s("hi"))]),
        "---\nen:\n  a: hi\n  b:\n    c: x\n"
    );
}

#[test]
fn mod_sorts_every_level_byte_wise() {
    let out = emit(&[("a.z", s("1")), ("a.B", s("2")), ("a.a", s("3"))]);
    assert_eq!(out, "---\nen:\n  a:\n    B: '2'\n    a: '3'\n    z: '1'\n");
}

#[test]
fn mod_keep_order_skips_the_sort() {
    let t = tree(&[("z", s("1")), ("a", s("2"))]);
    assert_eq!(emit_locale("en", &t), "---\nen:\n  z: '1'\n  a: '2'\n");
}

#[test]
fn mod_a_map_beats_a_leaf_at_the_same_path() {
    let mut t = tree(&[("a", s("leaf")), ("a.b", s("child"))]);
    t.sort();
    assert_eq!(emit_locale("en", &t), "---\nen:\n  a:\n    b: child\n");
    let mut t = tree(&[("a.b", s("child")), ("a", s("leaf"))]);
    t.sort();
    assert_eq!(emit_locale("en", &t), "---\nen:\n  a:\n    b: child\n");
}

#[test]
fn mod_a_blank_line_inside_a_block_carries_no_indentation() {
    let out = emit(&[("a", s("one\n\ntwo\n"))]);
    assert_eq!(out, "---\nen:\n  a: |\n    one\n\n    two\n");
    assert!(!out.lines().any(|l| l.ends_with(' ')));
}

#[test]
fn mod_sequences_sit_at_the_indent_of_their_key() {
    assert_eq!(
        emit(&[(
            "order",
            Value::List(vec![
                Value::Plain(":day".into()),
                Value::Plain(":month".into())
            ])
        )]),
        "---\nen:\n  order:\n  - :day\n  - :month\n"
    );
}

#[test]
fn mod_a_map_inside_a_sequence_lines_up_under_the_dash() {
    let item = Value::Table(vec![
        ("title".into(), s("Roof")),
        ("cost".into(), Value::Plain("4".into())),
    ]);
    assert_eq!(
        emit(&[("list", Value::List(vec![item]))]),
        "---\nen:\n  list:\n  - title: Roof\n    cost: 4\n"
    );
}

#[test]
fn mod_a_sequence_inside_a_sequence() {
    let inner = Value::List(vec![Value::Plain("1".into()), Value::Plain("2".into())]);
    assert_eq!(
        emit(&[("m", Value::List(vec![inner]))]),
        "---\nen:\n  m:\n  - - 1\n    - 2\n"
    );
}

#[test]
fn mod_a_block_scalar_inside_a_sequence() {
    assert_eq!(
        emit(&[("m", Value::List(vec![s("a\nb\n")]))]),
        "---\nen:\n  m:\n  - |\n    a\n    b\n"
    );
}

#[test]
fn mod_nil_and_empty_collections_inside_a_sequence() {
    assert_eq!(
        emit(&[(
            "m",
            Value::List(vec![
                Value::Nil,
                Value::List(vec![]),
                Value::Table(vec![]),
                s("x"),
            ])
        )]),
        "---\nen:\n  m:\n  -\n  - []\n  - {}\n  - x\n"
    );
}

#[test]
fn mod_a_map_nested_inside_a_map_inside_a_sequence() {
    let inner = Value::Table(vec![("b".into(), s("B")), ("c".into(), s("C"))]);
    let item = Value::Table(vec![("a".into(), inner)]);
    assert_eq!(
        emit(&[("list", Value::List(vec![item]))]),
        "---\nen:\n  list:\n  - a:\n      b: B\n      c: C\n"
    );
}

#[test]
fn mod_a_sequence_under_a_key_inside_a_sequence_item() {
    let item = Value::Table(vec![("tags".into(), Value::List(vec![s("a"), s("b")]))]);
    assert_eq!(
        emit(&[("list", Value::List(vec![item]))]),
        "---\nen:\n  list:\n  - tags:\n    - a\n    - b\n"
    );
}

#[test]
fn mod_a_later_leaf_replaces_an_earlier_one_at_the_same_path() {
    assert_eq!(
        emit(&[("a", s("first")), ("a", s("second"))]),
        "---\nen:\n  a: second\n"
    );
}

#[test]
fn mod_empty_collections_and_nil() {
    assert_eq!(
        emit(&[
            ("a", Value::Nil),
            ("b", Value::List(vec![])),
            ("c", Value::Table(vec![])),
        ]),
        "---\nen:\n  a:\n  b: []\n  c: {}\n"
    );
}

#[test]
fn mod_an_empty_locale_emits_an_empty_mapping() {
    assert_eq!(emit_locale("en", &Tree::new()), "---\nen: {}\n");
}

#[test]
fn mod_keys_follow_the_same_quoting_rules() {
    assert_eq!(
        emit(&[("true", s("a")), ("123", s("b")), ("ok", s("c"))]),
        "---\nen:\n  '123': b\n  ok: c\n  'true': a\n"
    );
}

#[test]
fn mod_deep_nesting() {
    let out = emit(&[("a.b.c.d.e.f.g.h.i.j", s("deep"))]);
    assert!(out.ends_with("                    j: deep\n"), "{out}");
}

#[test]
fn scalar_q1_empty_string() {
    assert_eq!(scalar(""), "''");
}

#[test]
fn scalar_q2_non_word_first_character() {
    assert_eq!(scalar("%{count} items"), "\"%{count} items\"");
    assert_eq!(scalar("-dash"), "\"-dash\"");
    assert_eq!(scalar("#hash"), "\"#hash\"");
    assert_eq!(scalar(" lead"), "\" lead\"");
    assert_eq!(scalar("«quoted»"), "\"«quoted»\"");
    assert_eq!(scalar("Ärzte"), "Ärzte");
    assert_eq!(scalar("5% off"), "5% off");
    assert_eq!(scalar("«a\"b»"), "«a\"b»");
    assert_eq!(scalar("<a href=\"x\">y</a>"), "<a href=\"x\">y</a>");
    assert_eq!(scalar("#a\"b"), "'#a\"b'");
}

#[test]
fn scalar_q3_trailing_space_or_tab() {
    assert_eq!(scalar("trail "), "'trail '");
    assert_eq!(scalar("a\tb"), "\"a\\tb\"");
}

#[test]
fn scalar_q4_colon_space_or_trailing_colon() {
    assert_eq!(scalar("a: b"), "'a: b'");
    assert_eq!(scalar("note:"), "'note:'");
    assert_eq!(scalar("a:b"), "a:b");
}

#[test]
fn scalar_q5_space_hash() {
    assert_eq!(scalar("a #b"), "'a #b'");
    assert_eq!(scalar("a#b"), "a#b");
}

#[test]
fn scalar_q6_values_yaml_would_not_read_as_strings() {
    for v in [
        "true",
        "false",
        "yes",
        "no",
        "on",
        "off",
        "y",
        "n",
        "null",
        "123",
        "1.5",
        "0x1f",
        "010",
        "089",
        "1_000",
        "1:30",
        ".inf",
        "2020-01-01",
        "<<",
        "=",
    ] {
        assert_ne!(scalar(v), v, "{v} must be quoted");
    }
    for v in ["1.2.3", "e5", "12a", "0x", "1-2"] {
        assert_eq!(scalar(v), v, "{v} must stay plain");
    }
}

#[test]
fn scalar_q7_control_characters() {
    assert_eq!(scalar("a\u{7}b"), "\"a\\x07b\"");
    assert_eq!(scalar("a\rb"), "\"a\\rb\"");
}

#[test]
fn scalar_non_bmp_characters_stay_literal() {
    assert_eq!(scalar("😀 emoji"), "\"😀 emoji\"");
    assert_eq!(scalar("emoji 😀"), "emoji 😀");
}

#[test]
fn scalar_single_quotes_double_up() {
    assert_eq!(scalar("'quoted'"), "\"'quoted'\"");
    assert_eq!(scalar("it's: here"), "'it''s: here'");
}

#[test]
fn scalar_multi_line_values_use_block_scalars() {
    assert_eq!(scalar("hello\nworld\n"), "|\n    hello\n    world");
    assert_eq!(scalar("hello\nworld"), "|-\n    hello\n    world");
    assert_eq!(scalar("hello\nworld\n\n"), "|+\n    hello\n    world\n");
    assert_eq!(scalar("hi\n"), "|\n    hi");
}

#[test]
fn scalar_unsafe_multi_line_values_are_double_quoted() {
    assert_eq!(scalar("  indented\nnext\n"), "\"  indented\\nnext\\n\"");
    assert_eq!(scalar("tail \nnext\n"), "\"tail \\nnext\\n\"");
}

#[test]
fn scalar_a_double_quoted_value_escapes_the_quote_and_the_backslash() {
    assert_eq!(scalar(" say \"hi\"\nx"), "\" say \\\"hi\\\"\\nx\"");
    assert_eq!(scalar(" a\\b\nc"), "\" a\\\\b\\nc\"");
    assert_eq!(scalar("tab\there\nx"), "\"tab\\there\\nx\"");
}

#[test]
fn scalar_a_key_that_needs_double_quotes_gets_them() {
    assert_eq!(format_key("a\tb"), "\"a\\tb\"");
    assert_eq!(format_key("plain"), "plain");
    assert_eq!(format_key("has space"), "has space");
}

#[test]
fn scalar_a_bool_and_a_nil_leaf_keep_their_written_form() {
    assert_eq!(format_scalar(&Value::Bool(true), 0), "true");
    assert_eq!(format_scalar(&Value::Bool(false), 0), "false");
    assert_eq!(format_scalar(&Value::Nil, 0), "");
    assert_eq!(format_scalar(&Value::Plain("1.50".into()), 0), "1.50");
}
