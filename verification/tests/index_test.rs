//! End-to-end tests for the public `mask` entry point.
//!
//! Each case is a mask string, an input value, and the expected output. The
//! table mirrors the canonical conformance suite for the fields language.

use json_mask_fields::{mask, Json, JsonNumber};
use serde_json::Value;

fn to_json(v: &Value) -> Json {
    match v {
        Value::Null => Json::Null,
        Value::Bool(b) => Json::Bool(*b),
        Value::Number(n) => Json::Number(if let Some(u) = n.as_u64() {
            JsonNumber::PosInt(u)
        } else if let Some(i) = n.as_i64() {
            JsonNumber::NegInt(i)
        } else {
            JsonNumber::Float(n.as_f64().unwrap().to_bits())
        }),
        Value::String(s) => Json::String(s.clone()),
        Value::Array(a) => Json::Array(a.iter().map(to_json).collect()),
        Value::Object(m) => Json::Object(m.iter().map(|(k, v)| (k.clone(), to_json(v))).collect()),
    }
}

fn to_value(j: &Json) -> Value {
    match j {
        Json::Null => Value::Null,
        Json::Bool(b) => Value::Bool(*b),
        Json::Number(JsonNumber::PosInt(u)) => Value::from(*u),
        Json::Number(JsonNumber::NegInt(i)) => Value::from(*i),
        Json::Number(JsonNumber::Float(bits)) => serde_json::Number::from_f64(f64::from_bits(*bits))
            .map(Value::Number)
            .unwrap_or(Value::Null),
        Json::String(s) => Value::String(s.clone()),
        Json::Array(a) => Value::Array(a.iter().map(to_value).collect()),
        Json::Object(m) => {
            let mut out = serde_json::Map::new();
            for (k, v) in m {
                out.insert(k.clone(), to_value(v));
            }
            Value::Object(out)
        }
    }
}

/// Parses a JSON literal.
fn v(text: &str) -> Value {
    serde_json::from_str(text).expect("test literal is JSON")
}

struct Case {
    m: &'static str,
    o: Value,
    e: Value,
}

/// A Google+ activity of the shape the conformance suite uses.
fn activities() -> Value {
    v(r#"{
        "kind": "plus#activity",
        "etag": "\"DOKFJGXi7L9ogpHc3dzouWOBEEg/ZSMjmC7ZUgJkHHbRyn7QTbREtjQ\"",
        "title": "Congratulations! You have successfully fetched an explicit public activity.",
        "published": "2011-09-08T21:17:41.232Z",
        "updated": "2011-10-04T17:25:23.000Z",
        "id": "z12gtjhq3qn2xxl2o224exwiqruvtda0i",
        "url": "https://plus.google.com/102817283354809142195/posts/F97fqZwJESL",
        "actor": {
            "id": "102817283354809142195",
            "displayName": "Jenny Murphy",
            "url": "https://plus.google.com/102817283354809142195",
            "image": {"url": "https://lh3.googleusercontent.com/photo.jpg?sz=50"}
        },
        "verb": "post",
        "object": {
            "objectType": "note",
            "content": "Congratulations! You have successfully fetched an explicit public activity. The attached video is your reward. :)",
            "url": "https://plus.google.com/102817283354809142195/posts/F97fqZwJESL",
            "replies": {"totalItems": 16, "selfLink": "https://www.googleapis.com/plus/v1/activities/z12gtjhq3qn2xxl2o224exwiqruvtda0i/comments"},
            "plusoners": {"totalItems": 44, "selfLink": "https://www.googleapis.com/plus/v1/activities/z12gtjhq3qn2xxl2o224exwiqruvtda0i/people/plusoners"},
            "resharers": {"totalItems": 1, "selfLink": "https://www.googleapis.com/plus/v1/activities/z12gtjhq3qn2xxl2o224exwiqruvtda0i/people/resharers"},
            "attachments": [
                {
                    "objectType": "video",
                    "displayName": "Rick Astley - Never Gonna Give You Up",
                    "content": "Music video by Rick Astley performing Never Gonna Give You Up.",
                    "url": "http://www.youtube.com/watch?v=dQw4w9WgXcQ",
                    "image": {"url": "https://lh3.googleusercontent.com/video.jpg", "type": "image/jpeg", "height": 360, "width": 480},
                    "embed": {"url": "http://www.youtube.com/v/dQw4w9WgXcQ&hl=en&fs=1&autoplay=1", "type": "application/x-shockwave-flash"}
                }
            ]
        },
        "provider": {"title": "Google+"},
        "access": {
            "kind": "plus#acl",
            "description": "Public",
            "items": [{"type": "public"}]
        }
    }"#)
}

#[test]
fn mask_table() {
    let cases = vec![
        // 0: filter(null) yields null, then the top level keeps it null
        Case { m: "a", o: Value::Null, e: Value::Null },
        // 1: missing key is dropped, not nulled
        Case { m: "a", o: v(r#"{"b": 1}"#), e: v(r#"{}"#) },
        // 2: an explicit null value is kept
        Case { m: "a", o: v(r#"{"a": null, "b": 1}"#), e: v(r#"{"a": null}"#) },
        // 3: a top-level array is masked element by element
        Case { m: "a", o: v(r#"[{"b": 1}]"#), e: v(r#"[{}]"#) },
        // 4 and 5: an empty mask is a passthrough.
        Case { m: "", o: v(r#"{"a": 1}"#), e: v(r#"{"a": 1}"#) },
        Case { m: "", o: v(r#"{"a": 1}"#), e: v(r#"{"a": 1}"#) },
        // 6: basic single key select
        Case { m: "a", o: v(r#"{"a": 1, "b": 1}"#), e: v(r#"{"a": 1}"#) },
        // 7: an empty string value is kept
        Case { m: "notEmptyStr", o: v(r#"{"notEmptyStr": ""}"#), e: v(r#"{"notEmptyStr": ""}"#) },
        // 8: a zero value is kept
        Case { m: "notEmptyNum", o: v(r#"{"notEmptyNum": 0}"#), e: v(r#"{"notEmptyNum": 0}"#) },
        // 9: comma-separated list
        Case { m: "a,b", o: v(r#"{"a": 1, "b": 1, "c": 1}"#), e: v(r#"{"a": 1, "b": 1}"#) },
        // 10: nested path
        Case { m: "obj/s", o: v(r#"{"obj": {"s": 1, "t": 2}, "b": 1}"#), e: v(r#"{"obj": {"s": 1}}"#) },
        // 11: a path masks each element of an array
        Case {
            m: "arr/s",
            o: v(r#"{"arr": [{"s": 1, "t": 2}, {"s": 2, "t": 3}], "b": 1}"#),
            e: v(r#"{"arr": [{"s": 1}, {"s": 2}]}"#),
        },
        // 12: deep path plus a sibling
        Case {
            m: "a/s/g,b",
            o: v(r#"{"a": {"s": {"g": 1, "z": 1}}, "t": 2, "b": 1}"#),
            e: v(r#"{"a": {"s": {"g": 1}}, "b": 1}"#),
        },
        // 13: the wildcard keeps every key, including null and zero
        Case {
            m: "*",
            o: v(r#"{"a": 2, "b": null, "c": 0, "d": 3}"#),
            e: v(r#"{"a": 2, "b": null, "c": 0, "d": 3}"#),
        },
        // 14: path then wildcard then path
        Case {
            m: "a/*/g",
            o: v(r#"{"a": {"s": {"g": 3}, "t": {"g": 4}, "u": {"z": 1}}, "b": 1}"#),
            e: v(r#"{"a": {"s": {"g": 3}, "t": {"g": 4}, "u": {}}}"#),
        },
        // 15: a wildcard leaf keeps each subtree whole
        Case {
            m: "a/*",
            o: v(r#"{"a": {"s": {"g": 3}, "t": {"g": 4}, "u": {"z": 1}}, "b": 3}"#),
            e: v(r#"{"a": {"s": {"g": 3}, "t": {"g": 4}, "u": {"z": 1}}}"#),
        },
        // 16: array sub-selection
        Case {
            m: "a(g)",
            o: v(r#"{"a": [{"g": 1, "d": 2}, {"g": 2, "d": 3}]}"#),
            e: v(r#"{"a": [{"g": 1}, {"g": 2}]}"#),
        },
        // 17: an empty array and an empty object are preserved
        Case { m: "a,c", o: v(r#"{"a": [], "c": {}}"#), e: v(r#"{"a": [], "c": {}}"#) },
        // 18: a wildcard nested inside an array sub-selection
        Case {
            m: "b(d/*/z)",
            o: v(r#"{"b": [{"d": {"g": {"z": 22}, "b": 34}}]}"#),
            e: v(r#"{"b": [{"d": {"g": {"z": 22}}}]}"#),
        },
        // 19: mixed select with a nested array path
        Case {
            m: "url,obj(url,a/url)",
            o: v(r#"{"url": 1, "id": "1", "obj": {"url": "h", "a": [{"url": 1, "z": 2}], "c": 3}}"#),
            e: v(r#"{"url": 1, "obj": {"url": "h", "a": [{"url": 1}]}}"#),
        },
        // 20: wildcard with a sub-selection
        Case {
            m: "*(a,b)",
            o: v(r#"{"p1": {"a": 1, "b": 1, "c": 1}, "p2": {"a": 2, "b": 2, "c": 2}}"#),
            e: v(r#"{"p1": {"a": 1, "b": 1}, "p2": {"a": 2, "b": 2}}"#),
        },
        // 21: fixture, single top key
        Case { m: "kind", o: activities(), e: v(r#"{"kind": "plus#activity"}"#) },
        // 22: fixture, nested object sub-selection
        Case {
            m: "object(objectType)",
            o: activities(),
            e: v(r#"{"object": {"objectType": "note"}}"#),
        },
        // 23: fixture, path into an array
        Case {
            m: "url,object(content,attachments/url)",
            o: activities(),
            e: v(r#"{
                "url": "https://plus.google.com/102817283354809142195/posts/F97fqZwJESL",
                "object": {
                    "content": "Congratulations! You have successfully fetched an explicit public activity. The attached video is your reward. :)",
                    "attachments": [{"url": "http://www.youtube.com/watch?v=dQw4w9WgXcQ"}]
                }
            }"#),
        },
        // 24: top-level array key select
        Case { m: "i", o: v(r#"[{"i": 1, "o": 2}, {"i": 2, "o": 2}]"#), e: v(r#"[{"i": 1}, {"i": 2}]"#) },
        // 25: a sub-key that matches nothing leaves an empty object
        Case { m: "foo(bar)", o: v(r#"{"foo": {"biz": "bar"}}"#), e: v(r#"{"foo": {}}"#) },
        // 26: same, different value
        Case { m: "foo(bar)", o: v(r#"{"foo": {"biz": "baz"}}"#), e: v(r#"{"foo": {}}"#) },
        // 27: a JS undefined value has no JSON form, so the key is simply absent
        Case {
            m: "foobar,foobiz",
            o: v(r#"{"foobar": {"foo": "bar"}}"#),
            e: v(r#"{"foobar": {"foo": "bar"}}"#),
        },
        // 28: a missing key on a plain object yields the empty object
        Case { m: "foobar", o: v(r#"{"foo": "bar"}"#), e: v(r#"{}"#) },
        // 29: a missing key on a top-level array yields an array of empties
        Case { m: "foobar", o: v(r#"[{"biz": "baz"}]"#), e: v(r#"[{}]"#) },
        // 30: an array leaf is kept whole, including falsy elements
        Case { m: "a", o: v(r#"{"a": [0, 0]}"#), e: v(r#"{"a": [0, 0]}"#) },
        // 31: same with a longer array
        Case { m: "a", o: v(r#"{"a": [1, 0, 1]}"#), e: v(r#"{"a": [1, 0, 1]}"#) },
        // 32: only own keys are considered (a class instance with own a,b)
        Case { m: "a/b", o: v(r#"{"a": {"a": 3, "b": 4}}"#), e: v(r#"{"a": {"b": 4}}"#) },
        // 33: partial array elements, one matches and one becomes empty
        Case {
            m: "a(b/c),e",
            o: v(r#"{"a": [{"b": {"c": 1}}, {"d": 2}], "e": 3, "f": 4, "g": 5}"#),
            e: v(r#"{"a": [{"b": {"c": 1}}, {}], "e": 3}"#),
        },
        // 34: deeper version of the same
        Case {
            m: "a(b/c/d),e",
            o: v(r#"{"a": [{"b": {"c": {"d": 1}}}, {"d": 2}], "e": 3, "f": 4, "g": 5}"#),
            e: v(r#"{"a": [{"b": {"c": {"d": 1}}}, {}], "e": 3}"#),
        },
        // 35: two array sub-selections side by side
        Case {
            m: "beta(first,second/third),cappa(first,second/third)",
            o: v(r#"{
                "alpha": 3,
                "beta": {"first": "fv", "second": {"third": "tv", "fourth": "fv"}},
                "cappa": {"first": "fv", "second": {"third": "tv", "fourth": "fv"}}
            }"#),
            e: v(r#"{
                "beta": {"first": "fv", "second": {"third": "tv"}},
                "cappa": {"first": "fv", "second": {"third": "tv"}}
            }"#),
        },
        // 36: an escaped slash makes a literal key
        Case { m: "a\\/b", o: v(r#"{"a/b": 1, "c": 2}"#), e: v(r#"{"a/b": 1}"#) },
        // 37: an escaped slash inside a sub-selection
        Case {
            m: "beta(first,second\\/third),cappa(first,second\\/third)",
            o: v(r#"{
                "alpha": 3,
                "beta": {"first": "fv", "second/third": "tv", "third": {"fourth": "fv"}},
                "cappa": {"first": "fv", "second/third": "tv", "third": {"fourth": "fv"}}
            }"#),
            e: v(r#"{
                "beta": {"first": "fv", "second/third": "tv"},
                "cappa": {"first": "fv", "second/third": "tv"}
            }"#),
        },
        // 38: an escaped star is a literal key, not a wildcard
        Case { m: "\\*", o: v(r#"{"*": 101, "beta": "hidden"}"#), e: v(r#"{"*": 101}"#) },
        // 39: escaped star nested in a sub-selection
        Case {
            m: "first(\\*)",
            o: v(r#"{"first": {"*": 101, "beta": "hidden"}}"#),
            e: v(r#"{"first": {"*": 101}}"#),
        },
        // 40: escaped star alongside a normal key
        Case {
            m: "some,\\*",
            o: v(r#"{"*": 101, "beta": "hidden", "some": "visible"}"#),
            e: v(r#"{"*": 101, "some": "visible"}"#),
        },
        // 41: an escaped backslash selects a literal backslash key
        Case {
            m: "some,\\\\",
            o: v(r#"{"\\": 120, "beta": "hidden", "some": "visible"}"#),
            e: v(r#"{"\\": 120, "some": "visible"}"#),
        },
        // 42: a real newline byte is an ordinary name character
        Case {
            m: "multi\nline(a)",
            o: v(r#"{"multi": 130, "line": 131, "multi\nline": {"a": 135, "b": 134}}"#),
            e: v(r#"{"multi\nline": {"a": 135}}"#),
        },
        // 43: a star at the end of a name is literal
        Case { m: "a*", o: v(r#"{"a*": 1, "b": 2}"#), e: v(r#"{"a*": 1}"#) },
        // 44: a star at the start of a name is literal
        Case { m: "*a", o: v(r#"{"*a": 1, "b": 2}"#), e: v(r#"{"*a": 1}"#) },
    ];

    for (i, c) in cases.iter().enumerate() {
        let got = to_value(&mask(&to_json(&c.o), c.m));
        assert_eq!(got, c.e, "case #{i} mask={:?}", c.m);
    }
}
