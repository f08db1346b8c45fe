//! Concrete instances of the library's laws, and tests of its smaller parts.

use json_mask_fields::compiler::consume_selector_tail;
use json_mask_fields::filter::is_falsy;
use json_mask_fields::scanner::{is_terminal, push_name, scan, Token};
use json_mask_fields::cli::{check_fields, mask_parsed};
use json_mask_fields::{compile, filter, mask, select, CompiledMask, Json, JsonNumber, Node};
use serde_json::Value;
use std::collections::VecDeque;

fn to_json(v: &Value) -> Json {
    match v {
        Value::Null => Json::Null,
        Value::Bool(b) => Json::Bool(*b),
        Value::Number(n) => Json::Number(if let Some(u) = n.as_u64() {
            JsonNumber::PosInt(u)
        } else if let Some(i) = n.as_i64() {
            JsonNumber::NegInt(i)
        } else {
            JsonNumber::Float(n.as_f64().unwrap().to_bits())
        }),
        Value::String(s) => Json::String(s.clone()),
        Value::Array(a) => Json::Array(a.iter().map(to_json).collect()),
        Value::Object(m) => Json::Object(m.iter().map(|(k, v)| (k.clone(), to_json(v))).collect()),
    }
}

fn to_value(j: &Json) -> Value {
    match j {
        Json::Null => Value::Null,
        Json::Bool(b) => Value::Bool(*b),
        Json::Number(JsonNumber::PosInt(u)) => Value::from(*u),
        Json::Number(JsonNumber::NegInt(i)) => Value::from(*i),
        Json::Number(JsonNumber::Float(bits)) => serde_json::Number::from_f64(f64::from_bits(*bits))
            .map(Value::Number)
            .unwrap_or(Value::Null),
        Json::String(s) => Value::String(s.clone()),
        Json::Array(a) => Value::Array(a.iter().map(to_value).collect()),
        Json::Object(m) => {
            let mut out = serde_json::Map::new();
            for (k, v) in m {
                out.insert(k.clone(), to_value(v));
            }
            Value::Object(out)
        }
    }
}

/// Parses a JSON literal.
fn v(text: &str) -> Value {
    serde_json::from_str(text).expect("test literal is JSON")
}

fn run_mask(o: &Value, m: &str) -> Value {
    to_value(&mask(&to_json(o), m))
}

fn run_filter(o: &Value, q: &str) -> Option<Value> {
    filter(&to_json(o), compile(q).as_ref()).map(|j| to_value(&j))
}

fn name(s: &str, wild: bool) -> Token {
    Token::Name { value: s.to_string(), is_wildcard: wild }
}

#[test]
fn law_no_mask_keeps_every_value() {
    for text in [r#"{"a": [1, {"b": null}], "c": ""}"#, "[1, 2, 3]", "[]", "7", "null"] {
        let o = v(text);
        assert_eq!(filter(&to_json(&o), None).map(|j| to_value(&j)), Some(o));
    }
}

#[test]
fn law_empty_query_keeps_truthy_and_nulls_falsy() {
    assert_eq!(run_mask(&v(r#"{"x": 1}"#), ""), v(r#"{"x": 1}"#));
    assert_eq!(run_mask(&v("[0]"), ""), v("[0]"));
    assert_eq!(run_mask(&v("0.0"), ""), Value::Null);
    assert_eq!(run_mask(&v(r#""s""#), ""), v(r#""s""#));
}

#[test]
fn law_falsy_values_survive_any_mask() {
    for text in ["null", "false", "0", "-0.0", r#""""#] {
        assert_eq!(run_filter(&v(text), "a,b/c,*"), Some(v(text)), "{text}");
    }
}

#[test]
fn law_truthy_scalars_drop_under_a_mask() {
    for text in ["true", "3", "-2", "1.5", r#""x""#] {
        assert_eq!(run_filter(&v(text), "a"), None, "{text}");
    }
}

#[test]
fn law_shape_is_kept_for_each_kind() {
    assert_eq!(run_filter(&v(r#"{"q": 1}"#), "a(b)"), Some(v("{}")));
    assert_eq!(run_filter(&v(r#"[{"q": 1}, 5]"#), "a"), Some(v("[{}]")));
    assert_eq!(run_filter(&v("[5, 6]"), "a"), None);
}

#[test]
fn law_empty_containers_survive() {
    for q in ["a", "*", "a(b)", "a/b/c"] {
        assert_eq!(run_filter(&v("[]"), q), Some(v("[]")));
        assert_eq!(run_filter(&v("{}"), q), Some(v("{}")));
    }
}

#[test]
fn law_masked_keys_come_from_the_data() {
    let out = run_mask(&v(r#"{"a": 1, "b": {"c": 2}}"#), "x,a,b/z,*(q)");
    let keys: Vec<String> = out.as_object().unwrap().keys().cloned().collect();
    assert_eq!(keys, vec!["a".to_string(), "b".to_string()]);
}

#[test]
fn law_explicit_null_stays_under_named_key() {
    assert_eq!(
        run_mask(&v(r#"{"a": null, "b": null, "c": 1}"#), "a(x),*(y)"),
        v(r#"{"a": null, "b": null}"#)
    );
}

#[test]
fn law_compiled_depth_is_capped() {
    fn depth(m: &CompiledMask) -> usize {
        m.entries()
            .iter()
            .map(|(_, n)| 1 + n.properties.as_ref().map_or(0, depth))
            .max()
            .unwrap_or(0)
    }
    let at_cap = "a/".repeat(127) + "a";
    assert_eq!(depth(&compile(&at_cap).unwrap()), 128);
    // one level more and the whole path is cut off
    let past_cap = "a/".repeat(128) + "a";
    assert_eq!(depth(&compile(&past_cap).unwrap()), 0);
    let deep = "a/".repeat(500) + "a";
    assert!(depth(&compile(&deep).unwrap()) <= 128);
    let nested = "a(".repeat(300);
    assert!(depth(&compile(&nested).unwrap()) <= 128);
}

#[test]
fn law_language_forms() {
    assert_eq!(
        run_mask(&v(r#"{"ab": 1, "cd": 2, "ef": 3}"#), "ab,cd"),
        v(r#"{"ab": 1, "cd": 2}"#)
    );
    assert_eq!(run_mask(&v(r#"{"p": {"q": 1, "r": 2}}"#), "p/q"), v(r#"{"p": {"q": 1}}"#));
    assert_eq!(
        run_mask(&v(r#"{"p": [{"q": 1, "r": 2, "s": 3}]}"#), "p(q,r)"),
        v(r#"{"p": [{"q": 1, "r": 2}]}"#)
    );
    assert_eq!(run_mask(&v(r#"{"p,q": 1, "p": 2}"#), "p\\,q"), v(r#"{"p,q": 1}"#));
    let c = compile("*").unwrap();
    assert!(c.entries()[0].1.is_wildcard);
    let c = compile("\\*").unwrap();
    assert!(!c.entries()[0].1.is_wildcard);
    assert_eq!(c.entries()[0].0, "*");
}

#[test]
fn law_named_keys_follow_mask_order() {
    let out = run_mask(&v(r#"{"a": 1, "b": 2, "c": 3}"#), "c,b,zz");
    assert_eq!(serde_json::to_string(&out).unwrap(), r#"{"c":3,"b":2}"#);
}

#[test]
fn law_wildcard_alone_is_identity_on_objects() {
    let o = v(r#"{"z": [1, {"k": 0}], "a": null, "m": "s"}"#);
    let out = run_mask(&o, "*");
    assert_eq!(serde_json::to_string(&out).unwrap(), serde_json::to_string(&o).unwrap());
    assert_eq!(
        run_mask(&v(r#"{"p": {"a": 1, "b": 2}, "q": 3}"#), "*(a)"),
        v(r#"{"p": {"a": 1}}"#)
    );
}

#[test]
fn scan_splits_names_and_terminals() {
    let toks = scan("a,b/c(d)\\,e");
    assert_eq!(
        toks,
        vec![
            name("a", false),
            Token::Comma,
            name("b", false),
            Token::Slash,
            name("c", false),
            Token::Open,
            name("d", false),
            Token::Close,
            name(",e", false),
        ]
    );
    assert_eq!(scan("*"), vec![name("*", true)]);
    assert_eq!(scan("*a"), vec![name("*a", false)]);
    assert_eq!(scan("a\\*"), vec![name("a\\*", false)]);
    assert_eq!(scan("x\\"), vec![name("x\\", false)]);
    assert_eq!(scan(""), Vec::<Token>::new());
    assert_eq!(scan(",,"), vec![Token::Comma, Token::Comma]);
}

#[test]
fn push_name_moves_a_pending_name() {
    let mut tokens = vec![Token::Comma];
    let mut pending = "*".to_string();
    let mut wild = true;
    push_name(&mut tokens, &mut pending, &mut wild);
    assert_eq!(tokens, vec![Token::Comma, name("*", true)]);
    assert!(pending.is_empty());
    assert!(!wild);
    push_name(&mut tokens, &mut pending, &mut wild);
    assert_eq!(tokens.len(), 2);
}

#[test]
fn terminals_are_the_four_structural_characters() {
    for c in [',', '/', '(', ')'] {
        assert!(is_terminal(c));
    }
    for c in ['a', '*', '\\', ' '] {
        assert!(!is_terminal(c));
    }
}

#[test]
fn selector_tail_stops_at_level_zero() {
    let mut q: VecDeque<Token> =
        vec![Token::Open, name("x", false), Token::Comma, Token::Close, Token::Comma, name("y", false)]
            .into_iter()
            .collect();
    assert_eq!(consume_selector_tail(&mut q), Some(Token::Comma));
    assert_eq!(q.into_iter().collect::<Vec<_>>(), vec![name("y", false)]);
    let mut q: VecDeque<Token> = vec![Token::Slash, Token::Close, name("z", false)].into_iter().collect();
    assert_eq!(consume_selector_tail(&mut q), Some(Token::Close));
    assert_eq!(q.len(), 1);
    let mut q: VecDeque<Token> = vec![Token::Open, Token::Comma].into_iter().collect();
    assert_eq!(consume_selector_tail(&mut q), None);
    assert!(q.is_empty());
}

#[test]
fn falsiness_of_each_kind() {
    assert!(is_falsy(&Json::Null));
    assert!(is_falsy(&Json::Bool(false)));
    assert!(!is_falsy(&Json::Bool(true)));
    assert!(is_falsy(&Json::Number(JsonNumber::PosInt(0))));
    assert!(!is_falsy(&Json::Number(JsonNumber::NegInt(-1))));
    assert!(is_falsy(&Json::Number(JsonNumber::Float((-0.0f64).to_bits()))));
    assert!(is_falsy(&Json::Number(JsonNumber::Float(0.0f64.to_bits()))));
    assert!(!is_falsy(&Json::Number(JsonNumber::Float(1e-300f64.to_bits()))));
    assert!(is_falsy(&Json::String(String::new())));
    assert!(!is_falsy(&Json::String("0".to_string())));
    assert!(!is_falsy(&Json::Array(vec![])));
    assert!(!is_falsy(&Json::Object(vec![])));
}

#[test]
fn compiled_mask_insert_replaces_in_place() {
    let leaf = |w: bool| Node { is_array: false, is_wildcard: w, properties: None };
    let mut m = CompiledMask::new();
    assert!(m.is_empty());
    m.insert("a".to_string(), leaf(false));
    m.insert("b".to_string(), leaf(false));
    m.insert("a".to_string(), leaf(true));
    assert_eq!(m.len(), 2);
    assert_eq!(m.entries()[0].0, "a");
    assert!(m.entries()[0].1.is_wildcard);
    assert!(m.contains_key(&"b".to_string()));
    assert!(!m.contains_key(&"c".to_string()));
    assert!(m.get(&"a".to_string()).unwrap().is_wildcard);
}

#[test]
fn deep_copy_has_the_same_value() {
    let o = v(r#"{"a": [1, -2, 2.5, {"b": null}], "c": "x", "d": true}"#);
    let j = to_json(&o);
    assert_eq!(to_value(&j.deep_copy()), o);
    assert_eq!(j.deep_copy(), j);
}

#[test]
fn depth_cap_keeps_following_sibling() {
    let query = "a(".repeat(128) + "x" + &")".repeat(128) + ",b";
    let m = compile(&query).unwrap();
    assert!(m.contains_key("b"));
    let query = "a(".repeat(128) + "x" + &",y".to_string() + &")".repeat(128) + ",b";
    assert!(compile(&query).unwrap().contains_key("b"));
}

#[test]
fn grammar_query_compiles_to_its_tree() {
    let m = compile("a(b/c,d),e,a2/f").unwrap();
    let keys: Vec<&str> = m.entries().iter().map(|(k, _)| k.as_str()).collect();
    assert_eq!(keys, vec!["a", "e", "a2"]);
    let a = m.get("a").unwrap();
    assert!(a.is_array && !a.is_wildcard);
    let inner = a.properties.as_ref().unwrap();
    let inner_keys: Vec<&str> = inner.entries().iter().map(|(k, _)| k.as_str()).collect();
    assert_eq!(inner_keys, vec!["b", "d"]);
    let b = inner.get("b").unwrap();
    assert!(!b.is_array);
    let c = b.properties.as_ref().unwrap();
    assert_eq!(c.len(), 1);
    assert!(c.get("c").unwrap().properties.is_none());
    assert!(inner.get("d").unwrap().properties.is_none());
    assert!(m.get("e").unwrap().properties.is_none());
    assert!(m.get("a2").unwrap().properties.as_ref().unwrap().contains_key("f"));
}

#[test]
fn compiled_keys_are_named() {
    fn check(m: &CompiledMask) {
        for (k, n) in m.entries() {
            assert!(!k.is_empty());
            if n.is_wildcard {
                assert_eq!(k, "*");
            }
            if let Some(p) = &n.properties {
                assert!(!p.is_empty());
                check(p);
            }
        }
    }
    for q in ["a,,b", "*,\\*", "a(*,b/*)", "a//b", "(a)", ",", "a(b,)", "x*y,*"] {
        check(&compile(q).unwrap());
    }
}

#[test]
fn select_is_filter_of_submask() {
    let o = to_json(&v(r#"{"a": 1, "b": [{"a": 2, "c": 3}, 4]}"#));
    let sub = compile("a").unwrap();
    for is_array in [false, true] {
        for is_wildcard in [false, true] {
            let node = Node { is_array, is_wildcard, properties: Some(sub.clone()) };
            assert_eq!(select(&o, &node), filter(&o, Some(&sub)));
            let arr = to_json(&v(r#"[{"a": 2, "c": 3}, "s"]"#));
            assert_eq!(select(&arr, &node), filter(&arr, Some(&sub)));
            let leaf = Node { is_array, is_wildcard, properties: None };
            assert_eq!(select(&o, &leaf), Some(o.clone()));
        }
    }
}

#[test]
fn node_clone_is_equal() {
    let m = compile("a(b/c),*").unwrap();
    let copy = m.clone();
    assert_eq!(copy, m);
    let n = m.get("a").unwrap();
    assert_eq!(n.clone(), *n);
    assert_eq!(n.deep_copy(), *n);
}

#[test]
fn masked_objects_keep_unique_keys() {
    let o = v(r#"{"a": {"x": 1, "y": 2}, "b": 2}"#);
    let r = mask(&to_json(&o), "*,a/x,a");
    if let Json::Object(es) = &r {
        let mut keys: Vec<&String> = es.iter().map(|(k, _)| k).collect();
        let n = keys.len();
        keys.sort();
        keys.dedup();
        assert_eq!(keys.len(), n);
    } else {
        panic!("expected an object");
    }
    assert_eq!(to_value(&r), v(r#"{"a": {"x": 1, "y": 2}, "b": 2}"#));
}

#[test]
fn check_fields_accepts_only_a_non_empty_query() {
    assert_eq!(check_fields(Some("a,b")), Ok("a,b"));
    assert_eq!(check_fields(Some("")), Err("Fields argument missing".to_string()));
    assert_eq!(check_fields(None), Err("Fields argument missing".to_string()));
}

#[test]
fn mask_parsed_masks_or_reports_invalid_json() {
    let o = to_json(&v(r#"{"a": 1, "b": 2}"#));
    let r = mask_parsed("a", Ok(o)).unwrap();
    assert_eq!(to_value(&r), v(r#"{"a": 1}"#));
    let falsy = mask_parsed("a", Ok(Json::Number(JsonNumber::PosInt(0)))).unwrap();
    assert_eq!(falsy, Json::Null);
    assert_eq!(
        mask_parsed("a", Err("expected value at line 1 column 1".to_string())),
        Err("Invalid JSON: expected value at line 1 column 1".to_string())
    );
}

#[test]
fn escaped_backslash_before_star_is_a_literal_key() {
    // The query text is `\\*`: an escaped backslash, then a star.
    let m = compile("\\\\*").unwrap();
    assert_eq!(m.len(), 1);
    assert_eq!(m.entries()[0].0, "\\*");
    assert!(!m.entries()[0].1.is_wildcard);
    let o = v(r#"{"\\*": 1, "*": 2}"#);
    assert_eq!(run_mask(&o, "\\\\*"), v(r#"{"\\*": 1}"#));
    // A lone escaped star `\*` is the literal key `*`.
    assert_eq!(run_mask(&o, "\\*"), v(r#"{"*": 2}"#));
    let m = compile("\\*,a/\\*").unwrap();
    assert_eq!(m.entries()[0].0, "*");
    assert!(!m.entries()[0].1.is_wildcard);
    let inner = m.get("a").unwrap().properties.as_ref().unwrap();
    assert_eq!(inner.entries()[0].0, "*");
    // An escaped star that starts a longer name keeps its backslash.
    assert_eq!(compile("\\*b").unwrap().entries()[0].0, "\\*b");
    assert_eq!(compile("b\\*").unwrap().entries()[0].0, "b\\*");
}

#[test]
fn scanned_tokens_spell_the_query() {
    fn text(tokens: &[Token]) -> String {
        let mut out = String::new();
        for t in tokens {
            match t {
                Token::Name { value, .. } => out.push_str(value),
                Token::Comma => out.push(','),
                Token::Slash => out.push('/'),
                Token::Open => out.push('('),
                Token::Close => out.push(')'),
            }
        }
        out
    }
    for q in ["", "a", "a,b/c(d,*)", ",,(", "x*y/**", "a((b))", "a b,c"] {
        assert_eq!(text(&scan(q)), q);
    }
}
