//! Concrete round-trip checks: formatting a value and parsing the text
//! after the `Payload: ` label yields the value back.

use event_formatter::format_payload;
use event_formatter::model::JsonValue;
use event_formatter::parse::parse_rendered;

fn check_round_trip(v: JsonValue) {
    let rendered = format_payload(&v);
    let body = rendered.strip_prefix("Payload: ").expect("label missing");
    assert_eq!(Some(v), parse_rendered(body));
}

#[test]
fn scalars_round_trip() {
    check_round_trip(JsonValue::Null);
    check_round_trip(JsonValue::Bool(true));
    check_round_trip(JsonValue::Bool(false));
    check_round_trip(JsonValue::Int(0));
    check_round_trip(JsonValue::Int(42));
    check_round_trip(JsonValue::Int(-42));
    check_round_trip(JsonValue::Int(i64::MAX));
    check_round_trip(JsonValue::Int(i64::MIN));
    check_round_trip(JsonValue::Str("".to_string()));
    check_round_trip(JsonValue::Str("plain".to_string()));
    check_round_trip(JsonValue::Str("a\"b\\c\nd\te\rf".to_string()));
    check_round_trip(JsonValue::Str("héllo ☃".to_string()));
}

#[test]
fn containers_round_trip() {
    check_round_trip(JsonValue::Array(vec![]));
    check_round_trip(JsonValue::Object(vec![]));
    check_round_trip(JsonValue::Array(vec![
        JsonValue::Int(1),
        JsonValue::Str("two".to_string()),
        JsonValue::Null,
    ]));
    check_round_trip(JsonValue::Object(vec![
        ("foo".to_string(), JsonValue::Str("bar".to_string())),
        (
            "nested".to_string(),
            JsonValue::Object(vec![(
                "deep".to_string(),
                JsonValue::Array(vec![JsonValue::Bool(false), JsonValue::Int(-1)]),
            )]),
        ),
        ("tricky \"key\"".to_string(), JsonValue::Null),
    ]));
}

#[test]
fn parse_rejects_what_renders_nothing() {
    assert_eq!(None, parse_rendered(""));
    assert_eq!(None, parse_rendered("Payload: Null"));
    assert_eq!(None, parse_rendered("Nul"));
    assert_eq!(None, parse_rendered("NullNull"));
    assert_eq!(None, parse_rendered("Number()"));
    assert_eq!(None, parse_rendered("Number(12"));
    assert_eq!(None, parse_rendered("Array [Null"));
    assert_eq!(None, parse_rendered("Object {\"a\" Null}"));
    // a number no signed 64-bit integer holds
    assert_eq!(None, parse_rendered("Number(9223372036854775808)"));
    assert_eq!(None, parse_rendered("Number(-9223372036854775809)"));
    // and the edge values that one does hold
    assert_eq!(
        Some(JsonValue::Int(i64::MAX)),
        parse_rendered("Number(9223372036854775807)")
    );
    assert_eq!(
        Some(JsonValue::Int(i64::MIN)),
        parse_rendered("Number(-9223372036854775808)")
    );
}
