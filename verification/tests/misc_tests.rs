use driftmap::capture::StreamKey;
use driftmap::config::{default_mode, parse_field_list, target_port};
use driftmap::dashboard::{KeyPress, SortMode, ViewState};
use driftmap::export::metric_label;
use driftmap::matcher::Target;
use driftmap::http::{HttpMessage, HttpRequest, HttpResponse};
use driftmap::pipeline::{target_of, ConnectionPairer};
use driftmap::plugin::{plugin_applies, GrpcScorer, PairVerdict, Request, Response};

#[test]
fn default_mode_is_capture() {
    assert_eq!(default_mode(), "capture");
}

#[test]
fn target_ports() {
    assert_eq!(target_port("localhost:8080"), Some(8080));
    assert_eq!(target_port("http://a:b:443"), Some(443));
    assert_eq!(target_port("9000"), Some(9000));
    assert_eq!(target_port("host:+80"), Some(80));
    assert_eq!(target_port("host:65535"), Some(65535));
    assert_eq!(target_port("host:65536"), None);
    assert_eq!(target_port("host:"), None);
    assert_eq!(target_port("host:80/"), None);
    assert_eq!(target_port("https://example.com"), None);
}

#[test]
fn metric_labels_replace_spaces_and_slashes() {
    assert_eq!(metric_label("GET /users/:id"), "GET__users_:id");
    assert_eq!(metric_label(""), "");
    assert_eq!(metric_label("plain"), "plain");
}

fn view() -> ViewState {
    ViewState::new()
}

#[test]
fn keys_move_the_selection_within_the_list() {
    let mut v = view();
    assert!(!v.handle_key(KeyPress::Down, 3));
    assert!(!v.handle_key(KeyPress::Char('j'), 3));
    assert!(!v.handle_key(KeyPress::Down, 3));
    assert_eq!(v.selected, 2);
    assert!(!v.handle_key(KeyPress::Up, 3));
    assert!(!v.handle_key(KeyPress::Char('k'), 3));
    assert!(!v.handle_key(KeyPress::Up, 3));
    assert_eq!(v.selected, 0);
    assert!(!v.handle_key(KeyPress::Down, 0));
    assert_eq!(v.selected, 0);
}

#[test]
fn keys_change_sort_order_and_quit() {
    let mut v = view();
    assert_eq!(v.sort_by, SortMode::ByScore);
    v.handle_key(KeyPress::Char('n'), 1);
    assert_eq!(v.sort_by, SortMode::ByName);
    v.handle_key(KeyPress::Char('r'), 1);
    assert_eq!(v.sort_by, SortMode::ByRequests);
    v.handle_key(KeyPress::Char('s'), 1);
    assert_eq!(v.sort_by, SortMode::ByScore);
    assert!(v.handle_key(KeyPress::Char('q'), 1));
}

#[test]
fn typing_turns_commands_into_text() {
    let mut v = view();
    assert!(!v.handle_key(KeyPress::Char('x'), 5));
    assert!(!v.handle_key(KeyPress::Char('q'), 5));
    assert!(!v.handle_key(KeyPress::Down, 5));
    assert_eq!(v.input, vec!['x', 'q']);
    assert_eq!(v.selected, 0);
    v.handle_key(KeyPress::Backspace, 5);
    assert_eq!(v.input, vec!['x']);
    v.handle_key(KeyPress::Esc, 5);
    assert!(v.input.is_empty());
    v.handle_key(KeyPress::Backspace, 5);
    assert!(v.input.is_empty());
    v.handle_key(KeyPress::Other, 5);
    assert!(v.input.is_empty());
}

fn response(body: &[u8]) -> Response {
    Response { status: 200, body: body.to_vec() }
}

fn request() -> Request {
    Request { method: b"POST".to_vec(), path: b"/svc/M".to_vec(), body: vec![] }
}

#[test]
fn grpc_verdicts() {
    let r = request();
    assert_eq!(GrpcScorer::score_pair(&r, &response(b"ab"), &r, &response(b"ab")), PairVerdict::Same);
    assert_eq!(GrpcScorer::score_pair(&r, &response(b"ab"), &r, &response(b"abc")), PairVerdict::Diverged);
    assert_eq!(
        GrpcScorer::score_pair(&r, &response(&[0, 0, 0, 0, 2, 7, 8]), &r, &response(&[0, 0, 0, 0, 3, 7, 8, 9])),
        PairVerdict::Diverged
    );
    assert_eq!(
        GrpcScorer::score_pair(&r, &response(&[0, 0, 0, 0, 2, 7, 8, 1]), &r, &response(&[1, 0, 0, 0, 2, 7, 8])),
        PairVerdict::Diverged
    );
    assert_eq!(
        GrpcScorer::score_pair(&r, &response(&[0, 0, 0, 0, 2, 7, 8]), &r, &response(&[0, 0, 0, 0, 2, 7, 9])),
        PairVerdict::Diverged
    );
    assert_eq!(
        GrpcScorer::score_pair(&r, &response(&[0, 0, 0, 0, 2, 7, 8]), &r, &response(&[0, 0, 0, 0, 2, 7, 8])),
        PairVerdict::Same
    );
    // A frame that declares more bytes than arrived is judged, not refused.
    assert_eq!(
        GrpcScorer::score_pair(&r, &response(&[0, 0, 0, 0, 9, 7]), &r, &response(&[0, 0, 0, 0, 9, 7])),
        PairVerdict::Same
    );
}

#[test]
fn plugins_apply_by_substring() {
    let pats = vec!["/grpc".to_string(), "Orders".to_string()];
    assert!(plugin_applies(&pats, "POST /grpc/svc"));
    assert!(plugin_applies(&pats, "GET /OrdersApi"));
    assert!(!plugin_applies(&pats, "GET /users"));
    assert!(!plugin_applies(&vec![], "GET /users"));
    assert!(plugin_applies(&vec!["".to_string()], "anything"));
}

#[test]
fn streams_belong_to_a_when_either_port_is_a() {
    let k = |src: u16, dst: u16| StreamKey { src_ip: [10, 0, 0, 1], dst_ip: [10, 0, 0, 2], src_port: src, dst_port: dst };
    assert_eq!(target_of(&k(5000, 8080), 8080), Target::A);
    assert_eq!(target_of(&k(8080, 5000), 8080), Target::A);
    assert_eq!(target_of(&k(5000, 9090), 8080), Target::B);
}

fn http_request(path: &str) -> HttpMessage {
    HttpMessage::Request(HttpRequest {
        method: "GET".to_string(),
        path: path.to_string(),
        path_template: path.to_string(),
        headers: vec![],
        body: vec![],
        captured_at: 1,
    })
}

fn http_response(status: u16) -> HttpMessage {
    HttpMessage::Response(HttpResponse { status, headers: vec![], body: vec![], captured_at: 2 })
}

#[test]
fn responses_answer_the_requests_of_their_connection_in_order() {
    let client = StreamKey { src_ip: [10, 0, 0, 1], dst_ip: [10, 0, 0, 2], src_port: 5000, dst_port: 8080 };
    let server = StreamKey { src_ip: [10, 0, 0, 2], dst_ip: [10, 0, 0, 1], src_port: 8080, dst_port: 5000 };
    let other = StreamKey { src_ip: [10, 0, 0, 3], dst_ip: [10, 0, 0, 2], src_port: 6000, dst_port: 8080 };
    let mut p = ConnectionPairer::new();
    assert!(p.take(&server, http_response(200)).is_none());
    assert!(p.take(&client, http_request("/a")).is_none());
    assert!(p.take(&client, http_request("/b")).is_none());
    assert!(p.take(&other, http_request("/c")).is_none());
    let (req, res) = p.take(&server, http_response(201)).unwrap();
    assert_eq!((req.path.as_str(), res.status), ("/a", 201));
    let (req, res) = p.take(&server, http_response(202)).unwrap();
    assert_eq!((req.path.as_str(), res.status), ("/b", 202));
    assert!(p.take(&server, http_response(203)).is_none());
    assert_eq!(p.waiting.len(), 1);
}

#[test]
fn field_lists_are_split_trimmed_and_filtered() {
    assert_eq!(parse_field_list("id,timestamp"), vec!["id", "timestamp"]);
    assert_eq!(parse_field_list(" id , ,\ttoken\n,, x y "), vec!["id", "token", "x y"]);
    assert!(parse_field_list("").is_empty());
    assert!(parse_field_list(" , ,").is_empty());
}

#[test]
fn field_lists_trim_unicode_white_space() {
    assert_eq!(parse_field_list("\u{3000}id\u{2003},\u{a0}\u{85}, tok\u{200b}"), vec!["id", "tok\u{200b}"]);
}
