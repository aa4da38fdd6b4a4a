use driftmap::http::{request_from_head, response_from_head, HeaderField, RequestHead, ResponseHead};
use driftmap::http::{parse_http_message, parse_http_message_at, templatize_path, HttpMessage};

#[test]
fn templatize_replaces_numeric_segments() {
    assert_eq!(templatize_path("/users/123/posts/456"), "/users/:id/posts/:id");
}

#[test]
fn templatize_drops_query_string() {
    assert_eq!(templatize_path("/users/123?expand=true"), "/users/:id");
}

#[test]
fn templatize_replaces_uuids_and_long_hex() {
    assert_eq!(
        templatize_path("/orders/550e8400-e29b-41d4-a716-446655440000/items/deadbeefcafe"),
        "/orders/:id/items/:id"
    );
}

#[test]
fn templatize_keeps_words_and_short_hex() {
    assert_eq!(templatize_path("/api/v2/abc/cafe"), "/api/v2/abc/cafe");
    assert_eq!(templatize_path("/"), "/");
    assert_eq!(templatize_path(""), "");
}

#[test]
fn templatize_keeps_slugs_that_are_not_uuids() {
    let slug = "/blog/how-to-build-an-ebpf-probe-in-rust-x";
    assert_eq!(templatize_path(slug), slug);
    assert_eq!(templatize_path("/k/550e8400-e29b-41d4-a716-44665544000g"), "/k/550e8400-e29b-41d4-a716-44665544000g");
    assert_eq!(templatize_path("/k/550e8400e-29b-41d4-a716-44665544000"), "/k/550e8400e-29b-41d4-a716-44665544000");
}

#[test]
fn templatize_groups_different_ids_together() {
    assert_eq!(templatize_path("/users/1"), templatize_path("/users/987654"));
}

#[test]
fn parses_request_with_body() {
    let raw = b"POST /users/42?x=1 HTTP/1.1\r\nHost: a\r\nContent-Length: 5\r\nX-Mixed-Case: V\r\n\r\nhello trailing";
    match parse_http_message_at(raw, 7) {
        Some(HttpMessage::Request(r)) => {
            assert_eq!(r.method, "POST");
            assert_eq!(r.path, "/users/42?x=1");
            assert_eq!(r.path_template, "/users/:id");
            assert_eq!(r.body, b"hello".to_vec());
            assert_eq!(r.captured_at, 7);
            assert!(r.headers.contains(&("x-mixed-case".to_string(), "V".to_string())));
            assert!(r.headers.contains(&("content-length".to_string(), "5".to_string())));
        }
        _ => panic!("expected a request"),
    }
}

#[test]
fn parses_response_and_truncates_short_body() {
    let raw = b"HTTP/1.1 404 Not Found\r\nContent-Length: 100\r\n\r\nshort";
    match parse_http_message_at(raw, 9) {
        Some(HttpMessage::Response(r)) => {
            assert_eq!(r.status, 404);
            assert_eq!(r.body, b"short".to_vec());
            assert_eq!(r.captured_at, 9);
        }
        _ => panic!("expected a response"),
    }
}

#[test]
fn missing_or_bad_content_length_means_empty_body() {
    let raw = b"HTTP/1.1 200 OK\r\nContent-Length: abc\r\n\r\nbody";
    match parse_http_message_at(raw, 0) {
        Some(HttpMessage::Response(r)) => assert!(r.body.is_empty()),
        _ => panic!("expected a response"),
    }
    let raw = b"GET / HTTP/1.1\r\n\r\nbody";
    match parse_http_message_at(raw, 0) {
        Some(HttpMessage::Request(r)) => assert!(r.body.is_empty()),
        _ => panic!("expected a request"),
    }
}

#[test]
fn partial_or_invalid_heads_do_not_parse() {
    assert!(parse_http_message_at(b"GET / HTTP/1.1\r\nHost: a\r\n", 0).is_none());
    assert!(parse_http_message_at(b"HTTP/1.1 200 OK\r\n", 0).is_none());
    assert!(parse_http_message_at(b"\x00\x01garbage", 0).is_none());
    assert!(parse_http_message_at(b"", 0).is_none());
}

#[test]
fn arbitrary_bytes_never_panic() {
    let mut seed: u32 = 12345;
    for len in 0..200usize {
        let mut buf = Vec::with_capacity(len);
        for _ in 0..len {
            seed = seed.wrapping_mul(1103515245).wrapping_add(12345);
            buf.push((seed >> 16) as u8);
        }
        let _ = parse_http_message(&buf);
        let mut prefixed = b"HTTP/".to_vec();
        prefixed.extend_from_slice(&buf);
        let _ = parse_http_message(&prefixed);
    }
}

#[test]
fn parse_stamps_the_current_time() {
    match parse_http_message(b"GET /a/12 HTTP/1.1\r\n\r\n") {
        Some(HttpMessage::Request(r)) => {
            assert_eq!(r.path_template, "/a/:id");
            assert!(r.captured_at > 0);
        }
        _ => panic!("expected a request"),
    }
}

#[test]
fn whether_a_message_parses_does_not_depend_on_time() {
    for raw in [&b"GET / HTTP/1.1\r\n\r\n"[..], &b"HTTP/1.1 200 OK\r\n"[..], &b"junk"[..]] {
        assert_eq!(parse_http_message_at(raw, 0).is_some(), parse_http_message_at(raw, u64::MAX).is_some());
    }
}

#[test]
fn identifiers_of_any_kind_share_a_template() {
    let t = templatize_path("/orders/123/items?page=2");
    assert_eq!(t, "/orders/:id/items");
    assert_eq!(templatize_path("/orders/550e8400-e29b-41d4-a716-446655440000/items?page=2"), t);
    assert_eq!(templatize_path("/orders/deadbeefcafe/items?page=2"), t);
    assert_eq!(templatize_path("/orders/42?x=1"), templatize_path("/orders/7?x=1"));
}

#[test]
fn templates_are_their_own_templates() {
    for p in ["/users/123/posts/456?x=1", "/a//b/", "", "/orders/deadbeefcafe", "/:id/x?y"] {
        let t = templatize_path(p);
        assert!(!t.contains('?'));
        let before_query = p.split('?').next().unwrap();
        assert_eq!(t.split('/').count(), before_query.split('/').count());
        assert_eq!(templatize_path(&t), t);
    }
}

#[test]
fn messages_are_built_from_their_heads() {
    let raw = b"POST /users/42 HTTP/1.1\r\nContent-Length: 3\r\nX-A: b\r\n\r\nabcdef";
    let head = RequestHead {
        header_len: 54,
        method: "POST".to_string(),
        path: "/users/42".to_string(),
        headers: vec![
            HeaderField { name: "Content-Length".to_string(), value: b"3".to_vec() },
            HeaderField { name: "X-A".to_string(), value: b"b".to_vec() },
        ],
    };
    let r = request_from_head(raw, head, 9);
    assert_eq!(r.path_template, "/users/:id");
    assert_eq!(r.headers, vec![("content-length".to_string(), "3".to_string()), ("x-a".to_string(), "b".to_string())]);
    assert_eq!(r.body, b"abc".to_vec());
    assert_eq!(r.captured_at, 9);
    let raw = b"HTTP/1.1 200 OK\r\nContent-Length: 9\r\n\r\nshort";
    let head = ResponseHead {
        header_len: 38,
        status: 200,
        headers: vec![HeaderField { name: "Content-Length".to_string(), value: b"9".to_vec() }],
    };
    let r = response_from_head(raw, head, 1);
    assert_eq!((r.status, r.body), (200, b"short".to_vec()));
}
