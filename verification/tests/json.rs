use lib::json::{escape, parse, Json};

fn number(j: &Json) -> f64 {
    match j {
        Json::Number(text) => text.parse::<f64>().unwrap(),
        other => panic!("not a number: {other:?}"),
    }
}

#[test]
fn parses_scalars() {
    assert_eq!(parse("null").unwrap(), Json::Null);
    assert_eq!(parse("true").unwrap(), Json::Bool(true));
    assert_eq!(parse("false").unwrap(), Json::Bool(false));
    assert_eq!(number(&parse("42").unwrap()), 42.0);
    assert_eq!(number(&parse("-3.5e2").unwrap()), -350.0);
    assert_eq!(parse("\"hi\"").unwrap(), Json::String("hi".into()));
}

#[test]
fn parses_nested_structures() {
    let doc = parse(r#"{"a": [1, {"b": null}], "c": "d"}"#).unwrap();
    assert_eq!(doc.get("c").unwrap().as_str(), Some("d"));
    let arr = doc.get("a").unwrap().as_array().unwrap();
    assert_eq!(number(&arr[0]), 1.0);
    assert_eq!(arr[1].get("b"), Some(&Json::Null));
}

#[test]
fn parses_empty_containers_and_whitespace() {
    assert_eq!(parse(" { } ").unwrap(), Json::Object(Vec::new()));
    assert_eq!(parse("[\n]").unwrap(), Json::Array(vec![]));
}

#[test]
fn decodes_string_escapes() {
    let doc = parse(r#""a\"b\\c\nd\teé""#).unwrap();
    assert_eq!(doc.as_str(), Some("a\"b\\c\nd\te\u{e9}"));
}

#[test]
fn decodes_surrogate_pairs() {
    // A package description can legally contain an emoji.
    let doc = parse(r#""😀""#).unwrap();
    assert_eq!(doc.as_str(), Some("\u{1F600}"));
}

#[test]
fn decodes_escaped_surrogate_pairs() {
    let doc = parse(r#""\ud83d\ude00""#).unwrap();
    assert_eq!(doc.as_str(), Some("\u{1F600}"));
}

#[test]
fn rejects_lone_surrogates() {
    assert!(parse(r#""\ud83d""#).is_err());
    assert!(parse(r#""\ude00""#).is_err());
}

#[test]
fn handles_raw_multibyte_utf8() {
    let doc = parse("\"caf\u{e9} \u{1F980}\"").unwrap();
    assert_eq!(doc.as_str(), Some("caf\u{e9} \u{1F980}"));
}

#[test]
fn rejects_trailing_garbage() {
    assert!(parse("{} {}").is_err());
    assert!(parse("1 2").is_err());
}

#[test]
fn rejects_truncated_input() {
    assert!(parse("{\"a\": ").is_err());
    assert!(parse("[1, 2").is_err());
    assert!(parse("\"unterminated").is_err());
    assert!(parse("").is_err());
}

#[test]
fn rejects_bad_numbers_and_literals() {
    assert!(parse("1.2.3").is_err());
    assert!(parse("truthy").is_err());
    assert!(parse("nul").is_err());
}

#[test]
fn object_keys_win_last_and_iterate_sorted() {
    let doc = parse(r#"{"z": 1, "a": 2, "z": 3}"#).unwrap();
    let keys: Vec<&String> = doc.as_object().unwrap().iter().map(|(k, _)| k).collect();
    assert_eq!(keys, vec!["a", "z"]);
    assert_eq!(number(doc.get("z").unwrap()), 3.0);
}

#[test]
fn escape_round_trips_through_parse() {
    let nasty = "he said \"hi\"\n\ttab\\slash\u{1}";
    let encoded = format!("\"{}\"", escape(nasty));
    assert_eq!(parse(&encoded).unwrap().as_str(), Some(nasty));
}

#[test]
fn escape_writes_short_forms_and_unicode_escapes() {
    assert_eq!(escape("a\"b\\c\n\r\t\u{1}"), "a\\\"b\\\\c\\n\\r\\t\\u0001");
    assert_eq!(escape("plain"), "plain");
}

#[test]
fn numbers_keep_their_text_and_reject_bad_forms() {
    assert_eq!(parse("1e5").unwrap(), Json::Number("1e5".into()));
    assert!(parse("-").is_err());
    assert!(parse("1e").is_err());
}

#[test]
fn parse_errors_name_the_byte_offset() {
    assert_eq!(parse("1 2").unwrap_err(), "trailing characters at byte 2");
    assert_eq!(parse("\"\u{e9}\" x").unwrap_err(), "trailing characters at byte 5");
    assert_eq!(parse("[1 2]").unwrap_err(), "expected ',' or ']' at byte 3");
    assert_eq!(parse("{\"a\" 1}").unwrap_err(), "expected ':' at byte 5");
    assert_eq!(parse("{1: 2}").unwrap_err(), "expected object key at byte 1");
    assert_eq!(parse("{\"a\": 1 ]").unwrap_err(), "expected ',' or '}' at byte 8");
    assert_eq!(parse("1.2.3").unwrap_err(), "invalid number '1.2.3' at byte 0");
    assert_eq!(parse(" nul").unwrap_err(), "invalid literal at byte 1");
    assert_eq!(parse("").unwrap_err(), "unexpected end of input");
}

#[test]
fn parse_errors_describe_bad_escapes() {
    assert_eq!(parse("\"\\q\"").unwrap_err(), "invalid escape '\\q'");
    assert_eq!(parse("\"\\u12\"").unwrap_err(), "truncated \\u escape");
    assert_eq!(parse("\"\\uzzzz\"").unwrap_err(), "bad \\u escape 'zzzz'");
    assert_eq!(parse("\"\\ud83d\"").unwrap_err(), "lone high surrogate");
    assert_eq!(parse("\"\\ude00\"").unwrap_err(), "lone low surrogate");
    assert_eq!(parse("\"abc").unwrap_err(), "unterminated string");
}

#[test]
fn unicode_escape_errors_count_bytes() {
    assert_eq!(parse("\"\\u12\u{e9}\"").unwrap_err(), "bad \\u escape '12\u{e9}'");
    assert_eq!(parse("\"\\u12\u{20ac}\"").unwrap_err(), "bad \\u escape");
    assert_eq!(parse("\"\\u\u{20ac}").unwrap_err(), "truncated \\u escape");
}
