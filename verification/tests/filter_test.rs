//! Tests for `filter` with a hand-built mask tree.
//!
//! These cases bypass `compile` and feed the engine a tree directly. They keep
//! an engine regression separate from a compiler regression and pin the
//! drop-versus-keep distinction that `filter` reports through its `Option`.

use json_mask_fields::{compile, filter, CompiledMask, Json, JsonNumber, Node};
use serde_json::Value;

fn to_json(v: &Value) -> Json {
    match v {
        Value::Null => Json::Null,
        Value::Bool(b) => Json::Bool(*b),
        Value::Number(n) => Json::Number(if let Some(u) = n.as_u64() {
            JsonNumber::PosInt(u)
        } else if let Some(i) = n.as_i64() {
            JsonNumber::NegInt(i)
        } else {
            JsonNumber::Float(n.as_f64().unwrap().to_bits())
        }),
        Value::String(s) => Json::String(s.clone()),
        Value::Array(a) => Json::Array(a.iter().map(to_json).collect()),
        Value::Object(m) => Json::Object(m.iter().map(|(k, v)| (k.clone(), to_json(v))).collect()),
    }
}

fn to_value(j: &Json) -> Value {
    match j {
        Json::Null => Value::Null,
        Json::Bool(b) => Value::Bool(*b),
        Json::Number(JsonNumber::PosInt(u)) => Value::from(*u),
        Json::Number(JsonNumber::NegInt(i)) => Value::from(*i),
        Json::Number(JsonNumber::Float(bits)) => serde_json::Number::from_f64(f64::from_bits(*bits))
            .map(Value::Number)
            .unwrap_or(Value::Null),
        Json::String(s) => Value::String(s.clone()),
        Json::Array(a) => Value::Array(a.iter().map(to_value).collect()),
        Json::Object(m) => {
            let mut out = serde_json::Map::new();
            for (k, v) in m {
                out.insert(k.clone(), to_value(v));
            }
            Value::Object(out)
        }
    }
}

/// Parses a JSON literal.
fn v(text: &str) -> Value {
    serde_json::from_str(text).expect("test literal is JSON")
}

fn mask(entries: Vec<(&'static str, Node)>) -> CompiledMask {
    let mut m = CompiledMask::new();
    for (k, n) in entries {
        m.insert(k.to_string(), n);
    }
    m
}

fn obj(properties: Option<CompiledMask>) -> Node {
    Node { is_array: false, is_wildcard: false, properties }
}

fn arr(properties: Option<CompiledMask>) -> Node {
    Node { is_array: true, is_wildcard: false, properties }
}

fn wild(properties: Option<CompiledMask>) -> Node {
    Node { is_array: false, is_wildcard: true, properties }
}

fn run_filter(o: &Value, m: Option<&CompiledMask>) -> Option<Value> {
    filter(&to_json(o), m).map(|j| to_value(&j))
}

#[test]
fn filter_with_hand_built_mask() {
    // The compiled form of a,b(d/*/z,b(g)),c,d/e,*
    let compiled = mask(vec![
        ("a", obj(None)),
        (
            "b",
            arr(Some(mask(vec![
                ("d", obj(Some(mask(vec![("*", wild(Some(mask(vec![("z", obj(None))]))))])))),
                ("b", arr(Some(mask(vec![("g", obj(None))])))),
            ]))),
        ),
        ("c", obj(None)),
        ("d/e", obj(None)),
        ("*", obj(None)),
    ]);

    let object = v(r#"{
        "a": 11,
        "n": 0,
        "b": [{
            "d": {"g": {"z": 22}, "b": 34, "c": {"a": 32}},
            "b": [{"z": 33}],
            "k": 99
        }],
        "c": 44,
        "g": 99,
        "d/e": 101,
        "*": 110
    }"#);

    let expected = v(r#"{
        "a": 11,
        "b": [{
            "d": {
                "g": {"z": 22},
                "c": {}
            },
            "b": [{}]
        }],
        "c": 44,
        "d/e": 101,
        "*": 110
    }"#);

    assert_eq!(run_filter(&object, Some(&compiled)), Some(expected));
}

#[test]
fn none_mask_is_passthrough_without_coercion() {
    // A None mask returns the value unchanged. filter does not coerce a falsy
    // scalar to null the way mask does.
    assert_eq!(run_filter(&v("0"), compile("").as_ref()), Some(v("0")));
    assert_eq!(run_filter(&v("false"), compile("").as_ref()), Some(v("false")));
    assert_eq!(run_filter(&v(r#""""#), compile("").as_ref()), Some(v(r#""""#)));

    let o = v(r#"{"a": 1, "b": {"c": 2}}"#);
    assert_eq!(run_filter(&o, compile("").as_ref()), Some(o));
}

#[test]
fn filter_reports_drop_distinct_from_kept_null() {
    // A scalar under a real mask is dropped and reported as None. An explicit
    // null is kept and reported as Some(null). The two are not the same.
    assert_eq!(run_filter(&v(r#""foo""#), compile("a").as_ref()), None);
    assert_eq!(run_filter(&v("5"), compile("a").as_ref()), None);
    assert_eq!(run_filter(&v("null"), compile("a").as_ref()), Some(v("null")));
}
