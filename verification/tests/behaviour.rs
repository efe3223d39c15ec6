use junk::{parse_document, parse_junk, unescape, Value};

fn render_float(lit: &str) -> String {
    lit.parse::<f64>().unwrap().to_string()
}

fn json(input: &str) -> String {
    parse_junk(input, render_float).expect("parse failed")
}

fn rejected(input: &str) -> bool {
    parse_junk(input, render_float).is_err()
}

// documents: values first, then definitions

#[test]
fn bare_values_make_a_list() {
    assert_eq!(json("true\n42\n-7"), "[true, 42, -7]");
}

#[test]
fn values_then_keys_make_an_object() {
    assert_eq!(json("true\nx: 1"), r#"{"true": true, "x": 1}"#);
}

#[test]
fn blank_document_is_an_empty_list() {
    assert_eq!(json("  \n\t\n// only a comment\n"), "[]");
}

#[test]
fn crlf_line_breaks_separate() {
    assert_eq!(json("x: 1\r\ny: 2\r\n"), r#"{"x": 1, "y": 2}"#);
}

#[test]
fn root_commas_rejected() {
    assert!(rejected("x: 1, y: 2"));
}

// numbers

#[test]
fn negative_zero_int_is_zero() {
    assert_eq!(json("x: -0"), r#"{"x": 0}"#);
}

#[test]
fn negative_zero_float_keeps_sign() {
    assert_eq!(json("x: -0.0"), r#"{"x": -0}"#);
}

#[test]
fn extreme_ints() {
    assert_eq!(
        json("a: 9223372036854775807\nb: -9223372036854775808"),
        r#"{"a": 9223372036854775807, "b": -9223372036854775808}"#,
    );
}

#[test]
fn leading_zero_rejected() {
    assert!(rejected("x: 07"));
}

#[test]
fn float_needs_digits_on_both_sides() {
    assert!(rejected("x: 1."));
    assert!(rejected("x: .5"));
}

#[test]
fn float_literal_reaches_renderer() {
    let out = parse_junk("x: [1.50, -0.25]", |lit: &str| format!("<{lit}>")).unwrap();
    assert_eq!(out, r#"{"x": [<1.50>, <-0.25>]}"#);
}

// separators

#[test]
fn trailing_comma_rejected() {
    assert!(rejected("x: [1, 2,]"));
    assert!(rejected("x: {a: 1,}"));
}

#[test]
fn mixed_separators_rejected() {
    assert!(rejected("x: [1, 2\n3]"));
}

#[test]
fn comment_inside_list() {
    assert_eq!(json("x: [ // numbers\n  1 // one\n  2\n]"), r#"{"x": [1, 2]}"#);
}

#[test]
fn missing_closing_bracket_rejected() {
    assert!(rejected("[1, 2"));
}

// strings

#[test]
fn raw_tab_in_string_is_escaped() {
    assert_eq!(json("x: \"a\tb\""), "{\"x\": \"a\\tb\"}");
}

#[test]
fn other_control_characters_written_as_unicode_escapes() {
    assert_eq!(json("\"\u{1}\""), "[\"\\u0001\"]");
    assert_eq!(json("x: \"a\u{0}b\u{1f}c\u{8}\""), "{\"x\": \"a\\u0000b\\u001fc\\u0008\"}");
    let out = json("x: \"\u{1b}[0m\"");
    assert!(out.chars().all(|c| c >= ' '));
    assert_eq!(out, "{\"x\": \"\\u001b[0m\"}");
}

#[test]
fn delete_character_is_not_a_control_for_json() {
    assert_eq!(json("\"\u{7f}\""), "[\"\u{7f}\"]");
}

#[test]
fn escaped_carriage_return() {
    assert_eq!(json(r#"x: "a\rb""#), r#"{"x": "a\rb"}"#);
}

#[test]
fn output_is_one_line() {
    let out = json("x: \"line1\nline2\"\ny: [\n  \"a\r\nb\"\n]");
    assert!(!out.contains('\n') && !out.contains('\r'));
    assert_eq!(out, r#"{"x": "line1\nline2", "y": ["a\r\nb"]}"#);
}

#[test]
fn json_string_reads_back() {
    let out = json(r#""say \"hi\"\\ \t""#);
    assert_eq!(out, r#"["say \"hi\"\\ \t"]"#);
    let inner = &out[1..out.len() - 1];
    assert_eq!(json(inner), out);
}

#[test]
fn unescape_resolves_every_escape() {
    assert_eq!(unescape(r#"a\"b\\c\nd\re\tf"#), "a\"b\\c\nd\re\tf");
}

#[test]
fn unescape_keeps_plain_text() {
    assert_eq!(unescape("héllo wörld"), "héllo wörld");
    assert_eq!(unescape(""), "");
}

// objects and definitions

#[test]
fn id_comes_first() {
    assert_eq!(json("#sword {a: 1, b}"), r#"[{"id": "sword", "a": 1, "b": true}]"#);
}

#[test]
fn flags() {
    assert_eq!(json("{on, !off, n: 2}"), r#"[{"on": true, "off": false, "n": 2}]"#);
}

#[test]
fn parsed_document_shape() {
    match parse_document("#a {b}").unwrap() {
        Value::List(items) => {
            assert_eq!(items.len(), 1);
            match &items[0] {
                Value::Object(defs) => {
                    assert_eq!(defs.len(), 2);
                    assert_eq!(defs[0].key, "id");
                    assert!(matches!(&defs[0].value, Value::Str(s) if s == "a"));
                    assert_eq!(defs[1].key, "b");
                    assert!(matches!(defs[1].value, Value::Bool(true)));
                }
                other => panic!("expected an object, got {other:?}"),
            }
        }
        other => panic!("expected a list, got {other:?}"),
    }
}

#[test]
fn syntax_error_location() {
    let e = parse_document("x: 1\ny: [1, 2\nz: 3").unwrap_err();
    assert_eq!((e.line, e.column), (1, 1));
    let e = parse_document("x: @").unwrap_err();
    assert_eq!((e.line, e.column), (0, 1));
    let e = parse_document("[1, 2").unwrap_err();
    assert_eq!((e.line, e.column), (0, 0));
    let e = parse_document("\n\n  a: 1, b: 2").unwrap_err();
    assert_eq!((e.line, e.column), (2, 6));
}

#[test]
fn syntax_error_on_garbage() {
    assert!(parse_document("x: @").is_err());
    assert!(parse_document("x:").is_err());
}

// integer range

#[test]
fn ints_in_range() {
    assert!(parse_document("x: 9223372036854775807").unwrap().ints_fit());
    assert!(parse_document("x: -9223372036854775808").unwrap().ints_fit());
    assert!(parse_document("x: [1, {y: 2}]").unwrap().ints_fit());
}

#[test]
fn ints_out_of_range() {
    assert!(!parse_document("x: 9223372036854775808").unwrap().ints_fit());
    assert!(!parse_document("x: -9223372036854775809").unwrap().ints_fit());
    assert!(!parse_document("x: [1, {y: 100000000000000000000}]").unwrap().ints_fit());
}

#[test]
fn to_json_of_parsed_value() {
    let v = parse_document("a: [1, 2.5]\nb: \"q\"").unwrap();
    assert_eq!(v.to_json(&render_float), r#"{"a": [1, 2.5], "b": "q"}"#);
}

#[test]
fn blank_and_comment_margins_change_nothing() {
    for s in ["x: 1", "#foo {x: 1}\n#bar {y: 2}", "[1, 2]", "\"a\"", "", "x: [1, 2", "a: \"unclosed"] {
        let wrapped = format!("\n\n{}\n\n// note\n", s);
        assert_eq!(
            parse_junk(&wrapped, render_float).ok(),
            parse_junk(s, render_float).ok(),
            "{s:?}"
        );
    }
}

#[test]
fn structure_of_lists_and_objects() {
    assert_eq!(json("[]"), "[[]]");
    assert_eq!(json("{}"), "[{}]");
    assert_eq!(json("{a, a: 2}"), r#"[{"a": true, "a": 2}]"#);
    assert_eq!(json("#x {id: 3}"), r#"[{"id": "x", "id": 3}]"#);
    assert_eq!(json("x: [3, 1, 2]"), r#"{"x": [3, 1, 2]}"#);
}
