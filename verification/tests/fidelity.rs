//! Checks the library's rendering against the debug rendering that
//! serde_json gives the same value, which is the exact text the hosting
//! runtime's handler produced.

use event_formatter::format_payload;
use event_formatter::model::JsonValue;

fn convert(v: &serde_json::Value) -> JsonValue {
    match v {
        serde_json::Value::Null => JsonValue::Null,
        serde_json::Value::Bool(b) => JsonValue::Bool(*b),
        serde_json::Value::Number(n) => JsonValue::Int(n.as_i64().unwrap()),
        serde_json::Value::String(s) => JsonValue::Str(s.clone()),
        serde_json::Value::Array(items) => JsonValue::Array(items.iter().map(convert).collect()),
        serde_json::Value::Object(map) => {
            JsonValue::Object(map.iter().map(|(k, v)| (k.clone(), convert(v))).collect())
        }
    }
}

fn check(input: &str) {
    let parsed: serde_json::Value = serde_json::from_str(input).unwrap();
    let expected = format!("Payload: {:?}", parsed);
    assert_eq!(expected, format_payload(&convert(&parsed)));
}

#[test]
fn matches_runtime_rendering() {
    check(r#"{"foo":"bar"}"#);
    check("null");
    check("42");
    check("[1,2,3]");
    check("true");
    check("false");
    check("-17");
    check("0");
    check(r#""plain text""#);
    check("[]");
    check("{}");
}

#[test]
fn matches_runtime_rendering_nested() {
    check(r#"{"a":[{"b":null},false,"x"],"z":{"q":-1}}"#);
    check(r#"[[],{},[[null]]]"#);
    check(r#"{"outer":{"inner":[1,-2,3]}}"#);
}

#[test]
fn matches_runtime_rendering_escapes() {
    check(r#""line\nbreak""#);
    check(r#""quote\"and\\backslash""#);
    check(r#""tab\tand\rreturn""#);
    check(r#"{"ke\"y":"v\\al"}"#);
}
