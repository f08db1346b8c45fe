//! Targeted `mask` tests that the main table leaves implicit.
//!
//! These pin scalar top-level inputs, the all-elements-drop array path, the
//! null coercion split between `mask` and `filter`, serialized key order, and
//! the embedded escaped star.

use json_mask_fields::{mask, Json, JsonNumber};
use serde_json::Value;

fn to_json(v: &Value) -> Json {
    match v {
        Value::Null => Json::Null,
        Value::Bool(b) => Json::Bool(*b),
        Value::Number(n) => Json::Number(if let Some(u) = n.as_u64() {
            JsonNumber::PosInt(u)
        } else if let Some(i) = n.as_i64() {
            JsonNumber::NegInt(i)
        } else {
            JsonNumber::Float(n.as_f64().unwrap().to_bits())
        }),
        Value::String(s) => Json::String(s.clone()),
        Value::Array(a) => Json::Array(a.iter().map(to_json).collect()),
        Value::Object(m) => Json::Object(m.iter().map(|(k, v)| (k.clone(), to_json(v))).collect()),
    }
}

fn to_value(j: &Json) -> Value {
    match j {
        Json::Null => Value::Null,
        Json::Bool(b) => Value::Bool(*b),
        Json::Number(JsonNumber::PosInt(u)) => Value::from(*u),
        Json::Number(JsonNumber::NegInt(i)) => Value::from(*i),
        Json::Number(JsonNumber::Float(bits)) => serde_json::Number::from_f64(f64::from_bits(*bits))
            .map(Value::Number)
            .unwrap_or(Value::Null),
        Json::String(s) => Value::String(s.clone()),
        Json::Array(a) => Value::Array(a.iter().map(to_value).collect()),
        Json::Object(m) => {
            let mut out = serde_json::Map::new();
            for (k, v) in m {
                out.insert(k.clone(), to_value(v));
            }
            Value::Object(out)
        }
    }
}

/// Parses a JSON literal.
fn v(text: &str) -> Value {
    serde_json::from_str(text).expect("test literal is JSON")
}

fn run_mask(o: &Value, m: &str) -> Value {
    to_value(&mask(&to_json(o), m))
}

#[test]
fn scalar_top_level_masks_to_null() {
    // A scalar has no keys. A truthy scalar drops, a falsy scalar passes the
    // filter guard, and mask coerces both to null at the top level.
    let cases: Vec<(Value, &str)> = vec![
        (v("5"), "a"),
        (v(r#""foo""#), "a"),
        (v("true"), "a"),
        (v("0"), "a"),
        (v(r#""""#), "a"),
        (v("false"), "a"),
    ];
    for (input, query) in cases {
        assert_eq!(run_mask(&input, query), Value::Null, "mask {input:?} {query:?}");
    }
}

#[test]
fn array_key_drops_when_every_element_vanishes() {
    // Truthy scalar elements under a sub-mask all drop, so the array key drops.
    assert_eq!(run_mask(&v(r#"{"a": [1, 2, 3]}"#), "a(b)"), v("{}"));
    // Falsy scalar elements pass the filter guard and are kept.
    assert_eq!(run_mask(&v(r#"{"a": [0, 0]}"#), "a(b)"), v(r#"{"a": [0, 0]}"#));
    // An object element survives as {} while the scalar drops.
    assert_eq!(
        run_mask(&v(r#"{"a": [{"b": 1}, 5]}"#), "a(b)"),
        v(r#"{"a": [{"b": 1}]}"#)
    );
}

#[test]
fn mask_coerces_falsy_filter_result_while_filter_keeps_it() {
    // Same input, same empty mask, different result. Only mask runs the falsy
    // coercion. The filter side of this split lives in filter_test.rs.
    assert_eq!(run_mask(&v("0"), ""), Value::Null);
    assert_eq!(run_mask(&v("false"), ""), Value::Null);
    assert_eq!(run_mask(&v(r#""""#), ""), Value::Null);
}

#[test]
fn serialized_output_follows_mask_order_then_data_order() {
    // Named keys come out in mask order. A value compare ignores order, so
    // assert the exact serialized string instead.
    let cases: Vec<(Value, &str, &str)> = vec![
        (v(r#"{"a": 1, "b": 2}"#), "b,a", r#"{"b":2,"a":1}"#),
        // A wildcard follows data order, not sorted order.
        (v(r#"{"z": 1, "a": 2, "m": 3}"#), "*", r#"{"z":1,"a":2,"m":3}"#),
        (v(r#"{"a": 1, "b": 2, "c": 3}"#), "c,a", r#"{"c":3,"a":1}"#),
    ];
    for (input, query, expected) in cases {
        let out = serde_json::to_string(&run_mask(&input, query)).unwrap();
        assert_eq!(out, expected, "serialized mask {input:?} {query:?}");
    }
}

#[test]
fn embedded_escaped_star_keeps_its_backslash() {
    // Lone \* normalizes to a literal *. An escaped star inside a longer name
    // keeps its backslash, so the key is the four-character string a\*b.
    assert_eq!(
        run_mask(&v(r#"{"a\\*b": 1, "a*b": 2}"#), "a\\*b"),
        v(r#"{"a\\*b": 1}"#)
    );
    assert_eq!(run_mask(&v(r#"{"a*b": 2}"#), "a\\*b"), v("{}"));
}
