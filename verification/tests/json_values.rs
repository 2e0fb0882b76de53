use wasm_data_aggregator::json::{JsonNumber, JsonValue};

fn from_serde(v: &serde_json::Value) -> JsonValue {
    match v {
        serde_json::Value::Null => JsonValue::Null,
        serde_json::Value::Bool(b) => JsonValue::Bool(*b),
        serde_json::Value::Number(n) => {
            if let Some(u) = n.as_u64() {
                JsonValue::Number(JsonNumber::PosInt(u))
            } else if let Some(i) = n.as_i64() {
                JsonValue::Number(JsonNumber::NegInt(i))
            } else {
                JsonValue::Number(JsonNumber::Float(n.to_string()))
            }
        }
        serde_json::Value::String(s) => JsonValue::String(s.clone()),
        serde_json::Value::Array(items) => JsonValue::Array(items.iter().map(from_serde).collect()),
        serde_json::Value::Object(map) => JsonValue::Object(
            map.iter().map(|(k, v)| (k.clone(), from_serde(v))).collect(),
        ),
    }
}

fn parse(text: &str) -> serde_json::Value {
    serde_json::from_str(text).unwrap()
}

#[test]
fn json_text_matches_serde_json_rendering() {
    let samples = [
        "null",
        "true",
        "false",
        "0",
        "18446744073709551615",
        "-9223372036854775808",
        "-42",
        "2.5",
        "-0.0",
        "1e300",
        "\"plain\"",
        "\"quote \\\" backslash \\\\ slash /\"",
        "\"ctl \\u0001 \\b \\f \\n \\r \\t \\u001f \\u007f\"",
        "\"caf\\u00e9 \\ud83d\\ude00\"",
        "[]",
        "{}",
        "[1,\"a\",[true,null],{\"k\":2.25}]",
        "{\"b\":1,\"a\":[{\"z\":\"x\\ny\"}],\"c\":{}}",
    ];
    for text in samples.iter() {
        let v = parse(text);
        assert_eq!(from_serde(&v).to_json_text(), v.to_string(), "rendering of {}", text);
    }
}

#[test]
fn json_text_of_nested_value_exact() {
    let v = JsonValue::Object(vec![
        ("a".to_string(), JsonValue::Array(vec![
            JsonValue::Number(JsonNumber::PosInt(1)),
            JsonValue::Number(JsonNumber::NegInt(-2)),
            JsonValue::Null,
        ])),
        ("b\"".to_string(), JsonValue::Bool(false)),
    ]);
    assert_eq!(v.to_json_text(), "{\"a\":[1,-2,null],\"b\\\"\":false}");
}

#[test]
fn key_text_of_each_kind() {
    assert_eq!(JsonValue::String("A".to_string()).key_text(), "A");
    assert_eq!(JsonValue::Number(JsonNumber::PosInt(42)).key_text(), "42");
    assert_eq!(JsonValue::Number(JsonNumber::NegInt(-7)).key_text(), "-7");
    assert_eq!(JsonValue::Number(JsonNumber::Float("1.5".to_string())).key_text(), "1.5");
    assert_eq!(JsonValue::Bool(true).key_text(), "true");
    assert_eq!(JsonValue::Bool(false).key_text(), "false");
    assert_eq!(JsonValue::Null.key_text(), "null");
    let arr = parse("[\"x\",1]");
    assert_eq!(from_serde(&arr).key_text(), "[\"x\",1]");
    let obj = parse("{\"k\":\"v\"}");
    assert_eq!(from_serde(&obj).key_text(), "{\"k\":\"v\"}");
}

#[test]
fn key_text_matches_metadata_value_conversion() {
    for text in ["\"A\"", "3", "-3", "2.5", "true", "null", "[1,2]", "{\"a\":\"b\\\"\"}"].iter() {
        let value = parse(text);
        let expected = match &value {
            serde_json::Value::String(s) => s.clone(),
            serde_json::Value::Number(n) => n.to_string(),
            serde_json::Value::Bool(b) => b.to_string(),
            _ => value.to_string(),
        };
        assert_eq!(from_serde(&value).key_text(), expected);
    }
}

#[test]
fn equality_matches_serde_json() {
    let samples = [
        "null", "true", "false", "1", "-1", "1.0", "0.0", "-0.0", "\"1\"", "\"a\"", "[]", "[1]",
        "[1,2]", "[2,1]", "{}", "{\"a\":1}", "{\"a\":1.0}", "{\"b\":1}", "{\"a\":1,\"b\":2}",
        "18446744073709551615",
    ];
    for a in samples.iter() {
        for b in samples.iter() {
            let va = parse(a);
            let vb = parse(b);
            assert_eq!(from_serde(&va).equals(&from_serde(&vb)), va == vb, "{} vs {}", a, b);
        }
    }
}

#[test]
fn float_zeros_are_equal() {
    let zero = JsonValue::Number(JsonNumber::Float("0.0".to_string()));
    let negative_zero = JsonValue::Number(JsonNumber::Float("-0.0".to_string()));
    assert!(zero.equals(&negative_zero));
    assert!(!zero.equals(&JsonValue::Number(JsonNumber::PosInt(0))));
}

#[test]
fn as_u64_and_as_i64() {
    let big = JsonValue::Number(JsonNumber::PosInt(u64::MAX));
    assert_eq!(big.as_u64(), Some(u64::MAX));
    assert_eq!(big.as_i64(), None);
    let small = JsonValue::Number(JsonNumber::PosInt(64));
    assert_eq!(small.as_u64(), Some(64));
    assert_eq!(small.as_i64(), Some(64));
    let negative = JsonValue::Number(JsonNumber::NegInt(-64));
    assert_eq!(negative.as_u64(), None);
    assert_eq!(negative.as_i64(), Some(-64));
    let float = JsonValue::Number(JsonNumber::Float("256.0".to_string()));
    assert_eq!(float.as_u64(), None);
    assert_eq!(float.as_i64(), None);
    assert_eq!(JsonValue::String("5".to_string()).as_u64(), None);
}

#[test]
fn number_text_uses_serde_json_digits() {
    assert_eq!(JsonNumber::PosInt(1234567890).to_text(), "1234567890");
    assert_eq!(JsonNumber::NegInt(-9223372036854775808).to_text(), "-9223372036854775808");
    assert_eq!(JsonNumber::PosInt(0).to_text(), "0");
}
