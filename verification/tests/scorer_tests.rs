use driftmap::diff::RawProtocolDivergence;
use driftmap::http::{HttpRequest, HttpResponse};
use driftmap::json::{JsonNumber, JsonValue};
use driftmap::matcher::MatchedPair;
use driftmap::scorer::{same_json, Scorer, WINDOW_SIZE};
use driftmap::DriftSession;

fn div(endpoint: &str, status_match: bool, latency: i64, headers: usize) -> RawProtocolDivergence {
    RawProtocolDivergence {
        endpoint: endpoint.to_string(),
        status_match,
        status_a: 200,
        status_b: if status_match { 200 } else { 500 },
        headers_only_a: (0..headers).map(|i| format!("h{}", i)).collect(),
        headers_only_b: vec![],
        headers_value_diff: vec![],
        body_identical: true,
        body_a_len: 0,
        body_b_len: 0,
        latency_delta_us: latency,
    }
}

#[test]
fn new_scorer_has_no_windows() {
    let s = Scorer::new(vec![]);
    assert_eq!(s.window_size, WINDOW_SIZE);
    assert!(s.endpoints().is_empty());
    assert!(s.score_inputs("GET /x").is_none());
}

#[test]
fn score_inputs_summarise_the_window() {
    let mut s = Scorer::new(vec![]);
    s.ingest_diff(div("GET /x", true, 100, 0));
    s.ingest_diff(div("GET /x", false, -300, 12));
    s.ingest_diff(div("GET /y", false, 5, 1));
    let inputs = s.score_inputs("GET /x").unwrap();
    assert_eq!(inputs.sample_count, 2);
    assert_eq!(inputs.status_mismatches, 1);
    assert_eq!(inputs.latency_abs_sum, 400);
    assert_eq!(inputs.header_diff_totals, vec![0, 12]);
    assert!(!inputs.schema_diverged);
    let mut eps = s.endpoints();
    eps.sort();
    assert_eq!(eps, vec!["GET /x".to_string(), "GET /y".to_string()]);
}

#[test]
fn extreme_latencies_are_summed_exactly() {
    let mut s = Scorer::new(vec![]);
    s.ingest_diff(div("GET /x", true, i64::MIN, 0));
    s.ingest_diff(div("GET /x", true, i64::MAX, 0));
    let inputs = s.score_inputs("GET /x").unwrap();
    assert_eq!(inputs.latency_abs_sum, (i64::MAX as u128) * 2 + 1);
}

#[test]
fn window_keeps_the_latest_thousand() {
    let mut s = Scorer::new(vec![]);
    for i in 0..(WINDOW_SIZE as i64 + 20) {
        s.ingest_diff(div("GET /x", i < 20, i, 0));
    }
    let inputs = s.score_inputs("GET /x").unwrap();
    assert_eq!(inputs.sample_count, WINDOW_SIZE);
    assert_eq!(inputs.status_mismatches, WINDOW_SIZE);
    let expected: u128 = (20..(WINDOW_SIZE as u128 + 20)).sum();
    assert_eq!(inputs.latency_abs_sum, expected);
}

fn obj(members: Vec<(&str, JsonValue)>) -> JsonValue {
    JsonValue::Object(members.into_iter().map(|(k, v)| (k.to_string(), v)).collect())
}

fn num(x: &str) -> JsonValue {
    JsonValue::Number(JsonNumber { text: x.to_string(), is_f64: false })
}

#[test]
fn pair_differences_count_status_and_normalised_body() {
    let s = Scorer::new(vec![]);
    let a = obj(vec![("id", num("1")), ("v", num("2"))]);
    let b = obj(vec![("id", num("9")), ("v", num("2"))]);
    assert_eq!(s.pair_differences(200, 200, b"x", Some(a), b"y", Some(b)), 0);
    let a = obj(vec![("v", num("2"))]);
    let b = obj(vec![("v", num("3"))]);
    assert_eq!(s.pair_differences(200, 500, b"x", Some(a), b"y", Some(b)), 2);
    assert_eq!(s.pair_differences(200, 200, b"raw", None, b"raw", None), 0);
    assert_eq!(s.pair_differences(200, 200, b"raw", None, b"raw2", None), 1);
    assert_eq!(s.pair_differences(200, 200, b"{}", Some(obj(vec![])), b"{}", None), 1);
}

#[test]
fn same_json_compares_numbers_by_text() {
    let a = JsonValue::Number(JsonNumber { text: "1.0".to_string(), is_f64: true });
    let b = JsonValue::Number(JsonNumber { text: "1.0".to_string(), is_f64: false });
    let c = JsonValue::Number(JsonNumber { text: "1".to_string(), is_f64: false });
    assert!(same_json(&a, &b));
    assert!(!same_json(&a, &c));
    assert!(!same_json(&JsonValue::Null, &JsonValue::Bool(false)));
    assert!(same_json(&JsonValue::Array(vec![JsonValue::Null]), &JsonValue::Array(vec![JsonValue::Null])));
    assert!(!same_json(&JsonValue::Array(vec![]), &JsonValue::Array(vec![JsonValue::Null])));
}

#[test]
fn session_counts_differences() {
    let session = DriftSession::new(vec!["ts".to_string()]);
    let a = obj(vec![("ts", num("1")), ("v", num("2"))]);
    let b = obj(vec![("ts", num("5")), ("v", num("2"))]);
    assert_eq!(session.differences(200, 200, b"", Some(a), b"", Some(b)), 0);
    assert_eq!(session.differences(200, 201, b"a", None, b"a", None), 1);
}

fn pair(req_a_at: u64, res_a_at: u64, req_b_at: u64, res_b_at: u64) -> MatchedPair {
    let req = |at| HttpRequest {
        method: "GET".to_string(),
        path: "/x".to_string(),
        path_template: "/x".to_string(),
        headers: vec![],
        body: vec![],
        captured_at: at,
    };
    let res = |at| HttpResponse { status: 200, headers: vec![], body: vec![], captured_at: at };
    MatchedPair { endpoint: "GET /x".to_string(), req_a: req(req_a_at), res_a: res(res_a_at), req_b: req(req_b_at), res_b: res(res_b_at) }
}

#[test]
fn ingest_pair_adds_its_divergence() {
    let mut s = Scorer::new(vec![]);
    assert!(s.ingest_pair(&pair(0, 250, 0, 100)));
    let inputs = s.score_inputs("GET /x").unwrap();
    assert_eq!(inputs.sample_count, 1);
    assert_eq!(inputs.latency_abs_sum, 150);
}

#[test]
fn ingest_pair_refuses_latency_differences_beyond_i64() {
    let mut s = Scorer::new(vec![]);
    assert!(!s.ingest_pair(&pair(0, (i64::MAX as u64) + 1, 0, 1)));
    assert!(s.score_inputs("GET /x").is_none());
}

fn from_serde(v: serde_json::Value) -> JsonValue {
    match v {
        serde_json::Value::Null => JsonValue::Null,
        serde_json::Value::Bool(b) => JsonValue::Bool(b),
        serde_json::Value::Number(n) => JsonValue::Number(JsonNumber { text: n.to_string(), is_f64: n.is_f64() }),
        serde_json::Value::String(s) => JsonValue::String(s),
        serde_json::Value::Array(a) => JsonValue::Array(a.into_iter().map(from_serde).collect()),
        serde_json::Value::Object(m) => JsonValue::Object(m.into_iter().map(|(k, v)| (k, from_serde(v))).collect()),
    }
}

fn parsed(body: &[u8]) -> Option<JsonValue> {
    serde_json::from_slice::<serde_json::Value>(body).ok().map(from_serde)
}

#[test]
fn key_order_whitespace_and_volatile_values_do_not_count() {
    let s = Scorer::new(vec![]);
    let a: &[u8] = br#"{"b":1,"a":[3,1,2],"created":"2024-01-01T00:00:00Z","request_id":"x1"}"#;
    let b: &[u8] = br#"{ "a": [1, 2, 3], "b": 1, "created": "2025-06-30T12:34:56Z", "request_id": "y2" }"#;
    assert_eq!(s.pair_differences(200, 200, a, parsed(a), b, parsed(b)), 0);
    let c: &[u8] = br#"{"a":[1,2,3],"b":2}"#;
    assert_eq!(s.pair_differences(200, 200, a, parsed(a), c, parsed(c)), 1);
    let junk: &[u8] = b"not json";
    assert!(parsed(junk).is_none());
    assert_eq!(s.pair_differences(200, 200, a, parsed(a), junk, parsed(junk)), 1);
}

#[test]
fn noise_at_any_depth_and_reordered_primitive_arrays_are_no_difference() {
    let s = Scorer::new(vec!["session".to_string()]);
    let st = |x: &str| JsonValue::String(x.to_string());
    let a = obj(vec![
        ("order", obj(vec![("total", num("5")), ("created_at", st("2024-01-01T00:00:00Z"))])),
        ("tags", JsonValue::Array(vec![st("b"), st("a"), num("1")])),
        ("items", JsonValue::Array(vec![obj(vec![("sku", st("x")), ("session", st("s1"))])])),
    ]);
    let b = obj(vec![
        ("order", obj(vec![("updated_at", st("2025-06-30T12:34:56Z")), ("total", num("5"))])),
        ("tags", JsonValue::Array(vec![num("1"), st("a"), st("b")])),
        ("items", JsonValue::Array(vec![obj(vec![("session", st("s2")), ("sku", st("x"))])])),
    ]);
    assert_eq!(s.pair_differences(200, 200, b"a", Some(a), b"b", Some(b)), 0);
    let c = obj(vec![("order", obj(vec![("total", num("6"))]))]);
    let d = obj(vec![("order", obj(vec![("total", num("5"))]))]);
    assert_eq!(s.pair_differences(200, 200, b"c", Some(c), b"d", Some(d)), 1);
}
