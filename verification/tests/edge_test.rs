//! Edge cases the main suite leaves implicit.

use json_mask_fields::{mask, Json, JsonNumber};
use serde_json::Value;

fn to_json(v: &Value) -> Json {
    match v {
        Value::Null => Json::Null,
        Value::Bool(b) => Json::Bool(*b),
        Value::Number(n) => Json::Number(if let Some(u) = n.as_u64() {
            JsonNumber::PosInt(u)
        } else if let Some(i) = n.as_i64() {
            JsonNumber::NegInt(i)
        } else {
            JsonNumber::Float(n.as_f64().unwrap().to_bits())
        }),
        Value::String(s) => Json::String(s.clone()),
        Value::Array(a) => Json::Array(a.iter().map(to_json).collect()),
        Value::Object(m) => Json::Object(m.iter().map(|(k, v)| (k.clone(), to_json(v))).collect()),
    }
}

fn to_value(j: &Json) -> Value {
    match j {
        Json::Null => Value::Null,
        Json::Bool(b) => Value::Bool(*b),
        Json::Number(JsonNumber::PosInt(u)) => Value::from(*u),
        Json::Number(JsonNumber::NegInt(i)) => Value::from(*i),
        Json::Number(JsonNumber::Float(bits)) => serde_json::Number::from_f64(f64::from_bits(*bits))
            .map(Value::Number)
            .unwrap_or(Value::Null),
        Json::String(s) => Value::String(s.clone()),
        Json::Array(a) => Value::Array(a.iter().map(to_value).collect()),
        Json::Object(m) => {
            let mut out = serde_json::Map::new();
            for (k, v) in m {
                out.insert(k.clone(), to_value(v));
            }
            Value::Object(out)
        }
    }
}

/// Parses a JSON literal.
fn v(text: &str) -> Value {
    serde_json::from_str(text).expect("test literal is JSON")
}

fn run_mask(o: &Value, m: &str) -> Value {
    to_value(&mask(&to_json(o), m))
}

struct Case {
    m: &'static str,
    o: Value,
    e: Value,
}

#[test]
fn edge_table() {
    let cases = vec![
        // A child mask on a scalar drops the key, since there is nothing to walk.
        Case { m: "a/b", o: v(r#"{"a": 5}"#), e: v(r#"{}"#) },
        Case { m: "a/b", o: v(r#"{"a": "x"}"#), e: v(r#"{}"#) },
        // Nested arrays keep their shape.
        Case {
            m: "a",
            o: v(r#"{"a": [[{"b": 1, "c": 2}]]}"#),
            e: v(r#"{"a": [[{"b": 1, "c": 2}]]}"#),
        },
        Case {
            m: "a(b(c))",
            o: v(r#"{"a": [{"b": [{"c": 1, "d": 2}]}]}"#),
            e: v(r#"{"a": [{"b": [{"c": 1}]}]}"#),
        },
        // A duplicate mask key takes the last definition.
        Case { m: "a(b),a(c)", o: v(r#"{"a": {"b": 1, "c": 2}}"#), e: v(r#"{"a": {"c": 2}}"#) },
        Case { m: "a,a(b)", o: v(r#"{"a": {"b": 1, "c": 2}}"#), e: v(r#"{"a": {"b": 1}}"#) },
        // Whitespace is part of the name, so " b" is a literal key.
        Case { m: "a, b", o: v(r#"{"a": 1, " b": 2, "b": 3}"#), e: v(r#"{"a": 1, " b": 2}"#) },
        // A whitespace-only mask is a literal key that matches nothing.
        Case { m: "   ", o: v(r#"{"a": 1}"#), e: v(r#"{}"#) },
        // A wildcard over an array keeps each element.
        Case {
            m: "a/*",
            o: v(r#"{"a": [{"x": 1}, {"y": 2}]}"#),
            e: v(r#"{"a": [{"x": 1}, {"y": 2}]}"#),
        },
        Case {
            m: "a(*)",
            o: v(r#"{"a": [{"x": 1}, {"y": 2}]}"#),
            e: v(r#"{"a": [{"x": 1}, {"y": 2}]}"#),
        },
        // A wildcard inside an array of arrays keeps the nested shape.
        Case { m: "a(*)", o: v(r#"{"a": [[{"x": 1}]]}"#), e: v(r#"{"a": [[{"x": 1}]]}"#) },
        Case { m: "a/*", o: v(r#"{"a": [[{"x": 1}]]}"#), e: v(r#"{"a": [[{"x": 1}]]}"#) },
        // A wildcard with a sub-path inside an array selects the leaf.
        Case {
            m: "a(*/z)",
            o: v(r#"{"a": [{"g": {"z": 1, "q": 2}}]}"#),
            e: v(r#"{"a": [{"g": {"z": 1}}]}"#),
        },
        // A top-level wildcard on an array keeps each element whole.
        Case { m: "*", o: v(r#"[{"a": 1, "b": 2}]"#), e: v(r#"[{"a": 1, "b": 2}]"#) },
        // A multi-byte key name matches as written.
        Case { m: "café", o: v(r#"{"café": 1, "x": 2}"#), e: v(r#"{"café": 1}"#) },
        // Empty containers selected as leaves are preserved.
        Case { m: "a", o: v(r#"{"a": {}}"#), e: v(r#"{"a": {}}"#) },
        Case { m: "a(b)", o: v(r#"{"a": []}"#), e: v(r#"{"a": []}"#) },
    ];

    for (i, c) in cases.iter().enumerate() {
        let got = run_mask(&c.o, c.m);
        assert_eq!(got, c.e, "edge case #{i} mask={:?}", c.m);
    }
}

#[test]
fn empty_and_null_mask_are_passthrough() {
    let o = v(r#"{"a": 1, "b": {"c": 2}}"#);
    assert_eq!(run_mask(&o, ""), o);
}

#[test]
fn wildcard_on_flat_object_is_identity() {
    let o = v(r#"{"a": 1, "b": "x", "c": null, "d": 0}"#);
    assert_eq!(run_mask(&o, "*"), o);
}

#[test]
fn mask_is_idempotent() {
    let o = v(r#"{
        "url": 1,
        "obj": {"url": "h", "a": [{"url": 1, "z": 2}], "c": 3}
    }"#);
    let once = run_mask(&o, "url,obj(url,a/url)");
    let twice = run_mask(&once, "url,obj(url,a/url)");
    assert_eq!(once, twice);
}
