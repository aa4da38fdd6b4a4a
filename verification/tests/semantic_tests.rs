use driftmap::json::{JsonNumber, JsonValue};
use driftmap::scorer::same_json;
use driftmap::semantic::{text_le_exec, SemanticNormalizer};

fn s(x: &str) -> JsonValue {
    JsonValue::String(x.to_string())
}

fn num(x: &str) -> JsonValue {
    JsonValue::Number(JsonNumber { text: x.to_string(), is_f64: false })
}

fn obj(members: Vec<(&str, JsonValue)>) -> JsonValue {
    JsonValue::Object(members.into_iter().map(|(k, v)| (k.to_string(), v)).collect())
}

fn keys(v: &JsonValue) -> Vec<String> {
    match v {
        JsonValue::Object(m) => m.iter().map(|(k, _)| k.clone()).collect(),
        _ => panic!("expected an object"),
    }
}

fn strings(v: &JsonValue) -> Vec<String> {
    match v {
        JsonValue::Array(a) => a
            .iter()
            .map(|e| match e {
                JsonValue::String(x) => x.clone(),
                JsonValue::Number(n) => n.text.clone(),
                JsonValue::Bool(b) => b.to_string(),
                _ => "?".to_string(),
            })
            .collect(),
        _ => panic!("expected an array"),
    }
}

#[test]
fn default_and_configured_fields_are_ignored() {
    let n = SemanticNormalizer::new(vec!["session".to_string()]);
    for name in ["id", "request_id", "trace_id", "password", "secret", "token", "api_key", "authorization", "session"] {
        assert!(n.is_ignored(name), "{}", name);
    }
    assert!(!n.is_ignored("name"));
    assert!(!n.is_ignored("ID"));
}

#[test]
fn drops_ignored_timestamp_and_uuid_members_at_every_depth() {
    let n = SemanticNormalizer::new(vec![]);
    let v = obj(vec![
        ("id", num("7")),
        ("name", s("ada")),
        ("created", s("2024-01-01T10:00:00Z")),
        ("ref", s("550e8400-e29b-41d4-a716-446655440000")),
        ("inner", obj(vec![("token", s("abc")), ("keep", JsonValue::Bool(true))])),
        ("short", s("2024-01-01")),
    ]);
    let out = n.normalized_value(v);
    assert_eq!(keys(&out), vec!["name", "inner", "short"]);
    match &out {
        JsonValue::Object(m) => assert_eq!(keys(&m[1].1), vec!["keep"]),
        _ => unreachable!(),
    }
}

#[test]
fn sorts_arrays_of_primitives_by_json_text() {
    let n = SemanticNormalizer::new(vec![]);
    let v = JsonValue::Array(vec![s("b"), num("10"), s("a"), JsonValue::Bool(true), num("9"), JsonValue::Bool(false)]);
    let out = n.normalized_value(v);
    assert_eq!(strings(&out), vec!["a", "b", "10", "9", "false", "true"]);
}

#[test]
fn sort_uses_quoted_text_of_strings() {
    let n = SemanticNormalizer::new(vec![]);
    let out = n.normalized_value(JsonValue::Array(vec![s("a\n"), s("a\\")]));
    assert_eq!(strings(&out), vec!["a\\", "a\n"]);
    // Escaped, a quote sorts after '#'; unescaped it would sort before.
    let out = n.normalized_value(JsonValue::Array(vec![s("a\""), s("a#")]));
    assert_eq!(strings(&out), vec!["a#", "a\""]);
    // A control character is written as \u00xx, after '\\' 'n' would be.
    let out = n.normalized_value(JsonValue::Array(vec![s("a\u{1}"), s("a\n")]));
    assert_eq!(strings(&out), vec!["a\n", "a\u{1}"]);
}

#[test]
fn arrays_with_non_primitives_keep_their_order() {
    let n = SemanticNormalizer::new(vec![]);
    let v = JsonValue::Array(vec![s("b"), JsonValue::Null, s("a")]);
    assert_eq!(strings(&n.normalized_value(v)), vec!["b", "?", "a"]);
    let v = JsonValue::Array(vec![obj(vec![("id", num("1")), ("x", num("2"))]), s("a")]);
    match n.normalized_value(v) {
        JsonValue::Array(a) => {
            assert_eq!(a.len(), 2);
            assert_eq!(keys(&a[0]), vec!["x"]);
        }
        _ => panic!("expected an array"),
    }
}

#[test]
fn order_drift_in_primitive_arrays_is_ignored() {
    let n = SemanticNormalizer::new(vec![]);
    let a = n.normalized_value(obj(vec![("tags", JsonValue::Array(vec![s("x"), s("y"), s("z")]))]));
    let b = n.normalized_value(obj(vec![("tags", JsonValue::Array(vec![s("z"), s("x"), s("y")]))]));
    assert!(same_json(&a, &b));
}

#[test]
fn normalize_in_place() {
    let n = SemanticNormalizer::new(vec![]);
    let mut v = obj(vec![("secret", s("x")), ("a", num("1"))]);
    n.normalize_value(&mut v);
    assert_eq!(keys(&v), vec!["a"]);
}

#[test]
fn text_order_is_code_point_order() {
    assert!(text_le_exec("a", "b"));
    assert!(!text_le_exec("b", "a"));
    assert!(text_le_exec("ab", "abc"));
    assert!(!text_le_exec("abc", "ab"));
    assert!(text_le_exec("", ""));
    assert!(text_le_exec("Z", "a"));
    assert!(text_le_exec("z", "\u{e9}"));
}

#[test]
fn equal_texts_keep_their_order_when_sorted() {
    let n = SemanticNormalizer::new(vec![]);
    let one_f = JsonValue::Number(JsonNumber { text: "1".to_string(), is_f64: true });
    let one_i = JsonValue::Number(JsonNumber { text: "1".to_string(), is_f64: false });
    match n.normalized_value(JsonValue::Array(vec![one_f, s("a"), one_i])) {
        JsonValue::Array(a) => {
            assert!(matches!(&a[0], JsonValue::String(x) if x == "a"));
            assert!(matches!(&a[1], JsonValue::Number(x) if x.is_f64));
            assert!(matches!(&a[2], JsonValue::Number(x) if !x.is_f64));
        }
        _ => panic!("expected an array"),
    }
}

#[test]
fn normalising_twice_changes_nothing() {
    let n = SemanticNormalizer::new(vec!["drop".to_string()]);
    let doc = || {
        obj(vec![
            ("drop", num("1")),
            ("tags", JsonValue::Array(vec![s("z"), s("a"), num("3")])),
            ("nested", obj(vec![("trace_id", s("t")), ("list", JsonValue::Array(vec![obj(vec![("id", num("1"))])]))])),
        ])
    };
    let once = n.normalized_value(doc());
    let twice = n.normalized_value(n.normalized_value(doc()));
    assert!(same_json(&once, &twice));
    assert_eq!(format!("{:?}", once), format!("{:?}", twice));
}

#[test]
fn documents_differing_only_in_dropped_members_normalise_alike() {
    let n = SemanticNormalizer::new(vec!["session".to_string()]);
    let a = obj(vec![
        ("created_at", s("2024-01-01T00:00:00Z")),
        ("total", num("5")),
        ("session", s("abc")),
    ]);
    let b = obj(vec![
        ("total", num("5")),
        ("ref", s("550e8400-e29b-41d4-a716-446655440000")),
        ("updated_at", s("2025-06-30T12:34:56Z")),
    ]);
    let na = n.normalized_value(a);
    let nb = n.normalized_value(b);
    assert!(same_json(&na, &nb));
    assert_eq!(keys(&na), vec!["total"]);
}
