use event_formatter::format_payload;
use event_formatter::model::JsonValue;

fn obj(entries: Vec<(&str, JsonValue)>) -> JsonValue {
    JsonValue::Object(entries.into_iter().map(|(k, v)| (k.to_string(), v)).collect())
}

fn text(s: &str) -> JsonValue {
    JsonValue::Str(s.to_string())
}

#[test]
fn test_event_handler() {
    let payload = obj(vec![("foo", text("bar"))]);
    let response = format_payload(&payload);
    assert_eq!(r#"Payload: Object {"foo": String("bar")}"#, response);
}

#[test]
fn null_event() {
    assert_eq!("Payload: Null", format_payload(&JsonValue::Null));
}

#[test]
fn number_event() {
    assert_eq!("Payload: Number(42)", format_payload(&JsonValue::Int(42)));
}

#[test]
fn array_event() {
    let payload = JsonValue::Array(vec![
        JsonValue::Int(1),
        JsonValue::Int(2),
        JsonValue::Int(3),
    ]);
    assert_eq!(
        "Payload: Array [Number(1), Number(2), Number(3)]",
        format_payload(&payload)
    );
}

#[test]
fn bool_events() {
    assert_eq!("Payload: Bool(true)", format_payload(&JsonValue::Bool(true)));
    assert_eq!("Payload: Bool(false)", format_payload(&JsonValue::Bool(false)));
}

#[test]
fn negative_and_extreme_numbers() {
    assert_eq!("Payload: Number(-7)", format_payload(&JsonValue::Int(-7)));
    assert_eq!("Payload: Number(0)", format_payload(&JsonValue::Int(0)));
    assert_eq!(
        "Payload: Number(9223372036854775807)",
        format_payload(&JsonValue::Int(i64::MAX))
    );
    assert_eq!(
        "Payload: Number(-9223372036854775808)",
        format_payload(&JsonValue::Int(i64::MIN))
    );
}

#[test]
fn string_event() {
    assert_eq!(
        r#"Payload: String("hello")"#,
        format_payload(&text("hello"))
    );
    assert_eq!(r#"Payload: String("")"#, format_payload(&text("")));
}

#[test]
fn string_escapes() {
    assert_eq!(
        "Payload: String(\"a\\\"b\\\\c\\nd\\te\\rf\")",
        format_payload(&text("a\"b\\c\nd\te\rf"))
    );
}

#[test]
fn empty_containers() {
    assert_eq!("Payload: Array []", format_payload(&JsonValue::Array(vec![])));
    assert_eq!("Payload: Object {}", format_payload(&JsonValue::Object(vec![])));
}

#[test]
fn nested_event() {
    let payload = obj(vec![
        ("a", JsonValue::Array(vec![JsonValue::Null, JsonValue::Bool(true)])),
        ("b", obj(vec![("inner", JsonValue::Int(-5))])),
    ]);
    assert_eq!(
        r#"Payload: Object {"a": Array [Null, Bool(true)], "b": Object {"inner": Number(-5)}}"#,
        format_payload(&payload)
    );
}

#[test]
fn unicode_string() {
    assert_eq!(
        r#"Payload: String("héllo ☃")"#,
        format_payload(&text("héllo ☃"))
    );
}

#[test]
fn output_always_has_label() {
    let samples = vec![
        JsonValue::Null,
        JsonValue::Bool(false),
        JsonValue::Int(-123),
        text("x"),
        JsonValue::Array(vec![JsonValue::Null]),
        obj(vec![("k", JsonValue::Int(1))]),
    ];
    for v in &samples {
        assert!(format_payload(v).starts_with("Payload: "));
    }
}

#[test]
fn output_depends_on_event_alone() {
    let first = format_payload(&obj(vec![("foo", text("bar"))]));
    let second = format_payload(&obj(vec![("foo", text("bar"))]));
    assert_eq!(first, second);
}
