use driftmap::diff::calculate_protocol_divergence;
use driftmap::http::{HttpRequest, HttpResponse};
use driftmap::matcher::MatchedPair;

fn req(at: u64) -> HttpRequest {
    HttpRequest {
        method: "GET".to_string(),
        path: "/x".to_string(),
        path_template: "/x".to_string(),
        headers: vec![],
        body: vec![],
        captured_at: at,
    }
}

fn res(status: u16, headers: &[(&str, &str)], body: &[u8], at: u64) -> HttpResponse {
    HttpResponse {
        status,
        headers: headers.iter().map(|(k, v)| (k.to_string(), v.to_string())).collect(),
        body: body.to_vec(),
        captured_at: at,
    }
}

#[test]
fn identical_responses_do_not_diverge() {
    let pair = MatchedPair {
        endpoint: "GET /x".to_string(),
        req_a: req(0),
        res_a: res(200, &[("content-type", "json")], b"{}", 100),
        req_b: req(0),
        res_b: res(200, &[("content-type", "json")], b"{}", 100),
    };
    let d = calculate_protocol_divergence(&pair);
    assert_eq!(d.endpoint, "GET /x");
    assert!(d.status_match);
    assert!(d.headers_only_a.is_empty());
    assert!(d.headers_only_b.is_empty());
    assert!(d.headers_value_diff.is_empty());
    assert!(d.body_identical);
    assert_eq!(d.latency_delta_us, 0);
}

#[test]
fn status_headers_body_and_latency_differences() {
    let pair = MatchedPair {
        endpoint: "GET /x".to_string(),
        req_a: req(1_000),
        res_a: res(200, &[("x-only-a", "1"), ("content-type", "json"), ("date", "mon")], b"aaa", 1_500),
        req_b: req(2_000),
        res_b: res(500, &[("x-only-b", "2"), ("content-type", "text"), ("x-request-id", "7")], b"bb", 2_200),
    };
    let d = calculate_protocol_divergence(&pair);
    assert!(!d.status_match);
    assert_eq!(d.status_a, 200);
    assert_eq!(d.status_b, 500);
    assert_eq!(d.headers_only_a, vec!["x-only-a".to_string()]);
    assert_eq!(d.headers_only_b, vec!["x-only-b".to_string()]);
    assert_eq!(
        d.headers_value_diff,
        vec![("content-type".to_string(), "json".to_string(), "text".to_string())]
    );
    assert!(!d.body_identical);
    assert_eq!(d.body_a_len, 3);
    assert_eq!(d.body_b_len, 2);
    assert_eq!(d.latency_delta_us, 300);
}

#[test]
fn response_stamped_before_request_counts_zero_latency() {
    let pair = MatchedPair {
        endpoint: "GET /x".to_string(),
        req_a: req(5_000),
        res_a: res(200, &[], b"", 1_000),
        req_b: req(0),
        res_b: res(200, &[], b"", 40),
    };
    let d = calculate_protocol_divergence(&pair);
    assert_eq!(d.latency_delta_us, -40);
}
