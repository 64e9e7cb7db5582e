use asobi::document::{
    document_to_json_string, document_to_json_value, format_document, get_string_param,
    json_value_to_document, Document, DocumentNumber,
};
use asobi::json::{get, get_text, json_to_string, parse_json, Json, JsonNumber};

fn make_input(pairs: &[(&str, &str)]) -> Document {
    Document::Object(
        pairs
            .iter()
            .map(|(k, v)| (k.to_string(), Document::String(v.to_string())))
            .collect(),
    )
}

#[test]
fn test_json_value_to_document_string() {
    let val = parse_json("\"hello\"").unwrap();
    let doc = json_value_to_document(&val);
    assert!(matches!(doc, Document::String(s) if s == "hello"));
}

#[test]
fn test_json_value_to_document_object() {
    let val = parse_json(r#"{"key": "value", "num": 42}"#).unwrap();
    let doc = json_value_to_document(&val);
    if let Document::Object(_) = &doc {
        assert_eq!(get_string_param(&doc, "key").unwrap(), "value");
    } else {
        panic!("expected Document::Object");
    }
}

#[test]
fn test_document_roundtrip() {
    let text = r#"{
            "path": "/tmp/test",
            "content": "hello",
            "nested": {"a": true, "b": [1, 2, 3]}
        }"#;
    let original = parse_json(text).unwrap();
    let doc = json_value_to_document(&original);
    let back = document_to_json_value(&doc);
    assert_eq!(json_to_string(&original), json_to_string(&back));
    let expected: serde_json::Value = serde_json::from_str(text).unwrap();
    let written: serde_json::Value = serde_json::from_str(&json_to_string(&back)).unwrap();
    assert_eq!(written, expected);
}

#[test]
fn test_format_document() {
    let doc = Document::Object(vec![("path".to_string(), Document::String("/tmp/x".to_string()))]);
    let s = format_document(&doc);
    assert!(s.contains("/tmp/x"));
}

#[test]
fn test_get_string_param_ok() {
    let input = make_input(&[("path", "/tmp/test")]);
    assert_eq!(get_string_param(&input, "path").unwrap(), "/tmp/test");
}

#[test]
fn test_get_string_param_missing() {
    let input = make_input(&[("path", "/tmp/test")]);
    assert!(get_string_param(&input, "missing").is_err());
}

#[test]
fn test_get_string_param_not_object() {
    let input = Document::String("hello".into());
    assert!(get_string_param(&input, "path").is_err());
}

#[test]
fn missing_parameters_are_told() {
    let error = get_string_param(&make_input(&[]), "path").unwrap_err();
    assert_eq!(error, "missing or invalid parameter: path");
    let number = Document::Object(vec![("path".to_string(), Document::Bool(true))]);
    assert!(get_string_param(&number, "path").is_err());
    let error = get_string_param(&Document::Null, "path").unwrap_err();
    assert_eq!(error, "input is not an object");
}

#[test]
fn later_entry_counts() {
    let twice = make_input(&[("path", "a"), ("path", "b")]);
    assert_eq!(get_string_param(&twice, "path").unwrap(), "b");
    assert_eq!(document_to_json_string(&twice), "{\"path\":\"b\"}");
}

#[test]
fn numbers_keep_their_value() {
    let written = |text: &str| {
        document_to_json_string(&json_value_to_document(&parse_json(text).unwrap()))
    };
    assert_eq!(written("0"), "0");
    assert_eq!(written("-7"), "-7");
    assert_eq!(written("9223372036854775807"), "9223372036854775807");
    assert_eq!(written("1.5"), "1.5");
    assert_eq!(written("[null,true,\"\\n\"]"), "[null,true,\"\\n\"]");
    let nearest = serde_json::Number::from_f64(18446744073709551615.0).unwrap();
    assert_eq!(written("18446744073709551615"), nearest.to_string());
}

#[test]
fn document_numbers_are_written() {
    let written = |n: DocumentNumber| document_to_json_string(&Document::Number(n));
    assert_eq!(written(DocumentNumber::PosInt(18446744073709551615)), "18446744073709551615");
    assert_eq!(written(DocumentNumber::NegInt(-3)), "-3");
    assert_eq!(written(DocumentNumber::NegInt(3)), "3");
    assert_eq!(written(DocumentNumber::Float(None)), "0");
    let half = serde_json::Number::from_f64(0.5);
    assert_eq!(written(DocumentNumber::Float(half)), "0.5");
}

#[test]
fn documents_are_copied_whole() {
    let doc = json_value_to_document(&parse_json(r#"{"a":[1,{"b":null}],"c":"d","e":2.5}"#).unwrap());
    assert_eq!(format_document(&doc.clone()), format_document(&doc));
    let json = parse_json(r#"{"a":[1,-1,{"b":null}],"c":false,"e":2.5}"#).unwrap();
    assert_eq!(json_to_string(&json.clone()), r#"{"a":[1,-1,{"b":null}],"c":false,"e":2.5}"#);
}

#[test]
fn json_is_read_and_written() {
    let json = parse_json(r#" {"b": [1, -2, 3.25], "a": "x\ty"} "#).unwrap();
    assert_eq!(json_to_string(&json), r#"{"a":"x\ty","b":[1,-2,3.25]}"#);
    assert_eq!(get_text(&json, "a"), Some("x\ty"));
    assert!(get_text(&json, "b").is_none());
    assert!(get(&json, "c").is_none());
    assert!(matches!(get(&json, "b"), Some(Json::Array(items)) if items.len() == 3));
    assert!(matches!(parse_json("-1"), Ok(Json::Number(JsonNumber::NegInt(-1)))));
    assert!(matches!(parse_json("1"), Ok(Json::Number(JsonNumber::PosInt(1)))));
    assert!(matches!(parse_json("1e3"), Ok(Json::Number(JsonNumber::Float(_)))));
    assert_eq!(parse_json("{").err().unwrap(), serde_json::from_str::<serde_json::Value>("{").unwrap_err().to_string());
}
