use neoutl::i18n::{catalog_entries, collect_messages, escape_yaml_double_quoted, has_japanese};
use neoutl::literals::string_literals;

#[test]
fn string_literals_skips_comments_and_chars() {
    let src = r#"let a = "hello"; // "no"
let c = '"'; /* "c" /* "d" */ "e" */ let s = "f\n\x41\u{3042}\"q";"#;
    assert_eq!(string_literals(src), vec!["hello".to_string(), "f\nA\u{3042}\"q".to_string()]);
}

#[test]
fn string_literals_edge_cases() {
    assert_eq!(string_literals("\"abc"), Vec::<String>::new());
    assert_eq!(string_literals("\"a\\\n    b\""), vec!["ab".to_string()]);
    assert_eq!(string_literals("\"\\xZZ!\""), vec!["!".to_string()]);
    assert_eq!(string_literals("\"\\u{D800}x\""), vec!["x".to_string()]);
    assert_eq!(string_literals("\"\\u{+41}\""), vec!["A".to_string()]);
    assert_eq!(string_literals("\"\\q\" \"\\0\""), vec!["q".to_string(), "\0".to_string()]);
    assert_eq!(string_literals("a / b \"x\""), vec!["x".to_string()]);
}

#[test]
fn yaml_escaping() {
    assert_eq!(escape_yaml_double_quoted("a\"b\\c\nd\u{1}\te\r"), "a\\\"b\\\\c\\nd\\u0001\\te\\r");
    assert_eq!(escape_yaml_double_quoted("\u{1f}"), "\\u001f");
    assert_eq!(escape_yaml_double_quoted("日本"), "日本");
}

#[test]
fn japanese_detection() {
    assert!(has_japanese("エラー"));
    assert!(has_japanese("x ぁ"));
    assert!(!has_japanese("error"));
    assert!(!has_japanese("、"));
}

#[test]
fn messages_are_sorted_and_unique() {
    let lits = vec![
        "b日本".to_string(),
        "a日本".to_string(),
        "b日本".to_string(),
        "plain".to_string(),
    ];
    assert_eq!(collect_messages(&lits), vec!["a日本".to_string(), "b日本".to_string()]);
}

#[test]
fn catalog_entry_lines() {
    let msgs = vec!["あ\"".to_string(), "い".to_string()];
    assert_eq!(catalog_entries(&msgs), "\"あ\\\"\": \"あ\\\"\"\n\"い\": \"い\"\n");
}

#[test]
fn escaped_message_reads_back_as_one_literal() {
    for m in ["plain", "tab\there", "quote \" and backslash \\", "line\nbreak\r\n", "", "日本語 \\n"] {
        let quoted = format!("\"{}\"", escape_yaml_double_quoted(m));
        assert_eq!(string_literals(&quoted), vec![m.to_string()]);
    }
}
