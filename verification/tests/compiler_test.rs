//! Tests for `compile`, the query-to-tree pass.
//!
//! Each case compiles a query and compares the tree, written as JSON, to an
//! expected literal. The written shape uses `type`, `isWildcard`, and
//! `properties` so it can be checked node for node.

use json_mask_fields::{compile, CompiledMask};
use serde_json::Value;

/// Parses a JSON literal.
fn v(text: &str) -> Value {
    serde_json::from_str(text).expect("test literal is JSON")
}

fn mask_to_value(m: &CompiledMask) -> Value {
    let mut out = serde_json::Map::new();
    for (key, node) in m.entries() {
        let mut n = serde_json::Map::new();
        let kind = if node.is_array { "array" } else { "object" };
        n.insert("type".to_string(), Value::String(kind.to_string()));
        if node.is_wildcard {
            n.insert("isWildcard".to_string(), Value::Bool(true));
        }
        if let Some(p) = &node.properties {
            n.insert("properties".to_string(), mask_to_value(p));
        }
        out.insert(key.clone(), Value::Object(n));
    }
    Value::Object(out)
}

fn tree(query: &str) -> Value {
    let compiled = compile(query).expect("query compiles");
    mask_to_value(&compiled)
}

#[test]
fn compile_table() {
    let cases: Vec<(&str, Value)> = vec![
        ("a", v(r#"{"a": {"type": "object"}}"#)),
        (
            "a,b,c",
            v(r#"{
                "a": {"type": "object"},
                "b": {"type": "object"},
                "c": {"type": "object"}
            }"#),
        ),
        (
            "a/*/c",
            v(r#"{
                "a": {
                    "type": "object",
                    "properties": {
                        "*": {
                            "type": "object",
                            "isWildcard": true,
                            "properties": {"c": {"type": "object"}}
                        }
                    }
                }
            }"#),
        ),
        (
            "a,b(d/*/g,b),c",
            v(r#"{
                "a": {"type": "object"},
                "b": {
                    "type": "array",
                    "properties": {
                        "d": {
                            "type": "object",
                            "properties": {
                                "*": {
                                    "type": "object",
                                    "isWildcard": true,
                                    "properties": {"g": {"type": "object"}}
                                }
                            }
                        },
                        "b": {"type": "object"}
                    }
                },
                "c": {"type": "object"}
            }"#),
        ),
        (
            "a(b/c,e)",
            v(r#"{
                "a": {
                    "type": "array",
                    "properties": {
                        "b": {"type": "object", "properties": {"c": {"type": "object"}}},
                        "e": {"type": "object"}
                    }
                }
            }"#),
        ),
        (
            "a(b/c),e",
            v(r#"{
                "a": {
                    "type": "array",
                    "properties": {
                        "b": {"type": "object", "properties": {"c": {"type": "object"}}}
                    }
                },
                "e": {"type": "object"}
            }"#),
        ),
        (
            "a(b/c/d),e",
            v(r#"{
                "a": {
                    "type": "array",
                    "properties": {
                        "b": {
                            "type": "object",
                            "properties": {
                                "c": {"type": "object", "properties": {"d": {"type": "object"}}}
                            }
                        }
                    }
                },
                "e": {"type": "object"}
            }"#),
        ),
        (
            "a(b/g(c)),e",
            v(r#"{
                "a": {
                    "type": "array",
                    "properties": {
                        "b": {
                            "type": "object",
                            "properties": {
                                "g": {
                                    "type": "array",
                                    "properties": {"c": {"type": "object"}}
                                }
                            }
                        }
                    }
                },
                "e": {"type": "object"}
            }"#),
        ),
        ("a\\/b\\/c", v(r#"{"a/b/c": {"type": "object"}}"#)),
        ("a\\(b\\)c", v(r#"{"a(b)c": {"type": "object"}}"#)),
        // an escaped b resolves to the literal b character
        ("a\\bc", v(r#"{"abc": {"type": "object"}}"#)),
        // an escaped star is a literal key, not a wildcard
        ("\\*", v(r#"{"*": {"type": "object"}}"#)),
        ("*", v(r#"{"*": {"type": "object", "isWildcard": true}}"#)),
        (
            "*(a,b,\\*,\\(,\\),\\,)",
            v(r#"{
                "*": {
                    "type": "array",
                    "isWildcard": true,
                    "properties": {
                        "a": {"type": "object"},
                        "b": {"type": "object"},
                        "*": {"type": "object"},
                        "(": {"type": "object"},
                        ")": {"type": "object"},
                        ",": {"type": "object"}
                    }
                }
            }"#),
        ),
        ("\\\\", v(r#"{"\\": {"type": "object"}}"#)),
        ("foo*bar", v(r#"{"foo*bar": {"type": "object"}}"#)),
        // a trailing backslash is kept as a literal backslash
        ("foo\\", v(r#"{"foo\\": {"type": "object"}}"#)),
        // \n escapes the n character, which has no special meaning, so it is n
        ("\\n", v(r#"{"n": {"type": "object"}}"#)),
        // a real newline byte is an ordinary name character
        ("multi\nline", v(r#"{"multi\nline": {"type": "object"}}"#)),
    ];

    for (query, expected) in cases {
        assert_eq!(tree(query), expected, "compile {query:?}");
    }
}

#[test]
fn empty_query_compiles_to_none() {
    assert!(compile("").is_none());
}
