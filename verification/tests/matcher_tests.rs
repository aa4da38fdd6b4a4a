use driftmap::http::{HttpRequest, HttpResponse};
use driftmap::matcher::{endpoint_key_of, Matcher, Target, MATCH_WINDOW_US, QUEUE_LIMIT};

fn req(method: &str, template: &str, tag: u64) -> HttpRequest {
    HttpRequest {
        method: method.to_string(),
        path: template.to_string(),
        path_template: template.to_string(),
        headers: vec![],
        body: vec![],
        captured_at: tag,
    }
}

fn res(status: u16) -> HttpResponse {
    HttpResponse { status, headers: vec![], body: vec![], captured_at: 0 }
}

#[test]
fn key_is_method_space_template() {
    assert_eq!(endpoint_key_of(&req("GET", "/users/:id", 0)), "GET /users/:id");
}

#[test]
fn pairs_with_waiting_exchange_of_other_target() {
    let mut m = Matcher::new();
    assert_eq!(m.window_us, MATCH_WINDOW_US);
    assert!(m.ingest_at(Target::A, req("GET", "/u", 1), res(200), 1_000).is_none());
    let pair = m.ingest_at(Target::B, req("GET", "/u", 2), res(404), 1_100).unwrap();
    assert_eq!(pair.endpoint, "GET /u");
    assert_eq!(pair.req_a.captured_at, 1);
    assert_eq!(pair.res_a.status, 200);
    assert_eq!(pair.req_b.captured_at, 2);
    assert_eq!(pair.res_b.status, 404);
    assert!(m.pending_a.get("GET /u").unwrap().is_empty());
}

#[test]
fn different_keys_do_not_pair() {
    let mut m = Matcher::new();
    assert!(m.ingest_at(Target::A, req("GET", "/u", 1), res(200), 0).is_none());
    assert!(m.ingest_at(Target::B, req("POST", "/u", 2), res(200), 0).is_none());
    assert!(m.ingest_at(Target::B, req("GET", "/v", 3), res(200), 0).is_none());
    assert_eq!(m.pending_a.get("GET /u").unwrap().len(), 1);
    assert_eq!(m.pending_b.get("POST /u").unwrap().len(), 1);
}

#[test]
fn pairs_in_first_in_first_out_order() {
    let mut m = Matcher::new();
    for tag in 1..=3 {
        assert!(m.ingest_at(Target::A, req("GET", "/u", tag), res(200), 10).is_none());
    }
    for expected in 1..=3 {
        let pair = m.ingest_at(Target::B, req("GET", "/u", 100), res(200), 20).unwrap();
        assert_eq!(pair.req_a.captured_at, expected);
    }
    assert!(m.ingest_at(Target::B, req("GET", "/u", 100), res(200), 30).is_none());
}

#[test]
fn expired_exchanges_are_skipped_and_dropped() {
    let mut m = Matcher::new();
    assert!(m.ingest_at(Target::A, req("GET", "/u", 1), res(200), 0).is_none());
    assert!(m.ingest_at(Target::A, req("GET", "/u", 2), res(200), 400_000).is_none());
    let pair = m.ingest_at(Target::B, req("GET", "/u", 9), res(200), 600_000).unwrap();
    assert_eq!(pair.req_a.captured_at, 2);
    assert!(m.ingest_at(Target::A, req("GET", "/u", 3), res(200), 600_000).is_none());
    assert!(m.ingest_at(Target::B, req("GET", "/u", 9), res(200), 1_200_000).is_none());
    assert!(m.pending_a.get("GET /u").unwrap().is_empty());
}

#[test]
fn exactly_the_window_is_still_live() {
    let mut m = Matcher::new();
    assert!(m.ingest_at(Target::B, req("GET", "/u", 1), res(200), 0).is_none());
    assert!(m.ingest_at(Target::A, req("GET", "/u", 2), res(200), 500_000).is_some());
}

#[test]
fn queues_are_capped() {
    let mut m = Matcher::new();
    for tag in 0..(QUEUE_LIMIT as u64 + 5) {
        assert!(m.ingest_at(Target::A, req("GET", "/u", tag), res(200), 0).is_none());
    }
    let q = m.pending_a.get("GET /u").unwrap();
    assert_eq!(q.len(), QUEUE_LIMIT);
    assert_eq!(q[0].request.captured_at, 5);
}

#[test]
fn gc_drops_expired_fronts() {
    let mut m = Matcher::new();
    assert!(m.ingest_at(Target::A, req("GET", "/u", 1), res(200), 0).is_none());
    assert!(m.ingest_at(Target::A, req("GET", "/u", 2), res(200), 300_000).is_none());
    assert!(m.ingest_at(Target::B, req("GET", "/v", 3), res(200), 0).is_none());
    m.gc_at(600_000);
    let qa = m.pending_a.get("GET /u").unwrap();
    assert_eq!(qa.len(), 1);
    assert_eq!(qa[0].request.captured_at, 2);
    assert!(m.pending_b.get("GET /v").unwrap().is_empty());
}

#[test]
fn ingest_and_gc_at_the_current_time() {
    let mut m = Matcher::new();
    assert!(m.ingest(Target::A, req("GET", "/now", 1), res(200)).is_none());
    let pair = m.ingest(Target::B, req("GET", "/now", 2), res(201)).unwrap();
    assert_eq!(pair.endpoint, "GET /now");
    assert_eq!(pair.res_b.status, 201);
    assert!(m.ingest(Target::A, req("GET", "/now", 3), res(200)).is_none());
    m.gc();
    assert_eq!(m.pending_a.get("GET /now").unwrap().len(), 1);
}
