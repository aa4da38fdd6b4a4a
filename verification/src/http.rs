//! HTTP/1.x messages and endpoint templates.
use vstd::prelude::*;
use vstd::string::*;
use vstd::utf8::*;
use vstd::slice::{slice_subrange, slice_to_vec};
use crate::text::{lowercase, lossy_string, parse_usize, parse_usize_spec, str_eq, unicode_lowercase, utf8_lossy, all_ascii_digits, all_ascii_hex_digits, prefix_before, char_is_ascii_digit, char_is_ascii_hex_digit, is_ascii_digit, is_ascii_hex_digit};

verus! {

// ---------------------------------------------------------------------------
// Messages
// ---------------------------------------------------------------------------

/// One HTTP request as captured on the wire. Header names are lowercased;
/// `captured_at` is the capture time in microseconds.
#[derive(Debug, Clone)]
pub struct HttpRequest {
    pub method: String,
    pub path: String,
    pub path_template: String,
    pub headers: Vec<(String, String)>,
    pub body: Vec<u8>,
    pub captured_at: u64,
}

/// One HTTP response as captured on the wire.
#[derive(Debug, Clone)]
pub struct HttpResponse {
    pub status: u16,
    pub headers: Vec<(String, String)>,
    pub body: Vec<u8>,
    pub captured_at: u64,
}

#[derive(Debug, Clone)]
pub enum HttpMessage {
    Request(HttpRequest),
    Response(HttpResponse),
}

pub struct RequestView {
    pub method: Seq<char>,
    pub path: Seq<char>,
    pub path_template: Seq<char>,
    pub headers: Seq<(Seq<char>, Seq<char>)>,
    pub body: Seq<u8>,
    pub captured_at: u64,
}

pub struct ResponseView {
    pub status: u16,
    pub headers: Seq<(Seq<char>, Seq<char>)>,
    pub body: Seq<u8>,
    pub captured_at: u64,
}

pub enum MessageView {
    Request(RequestView),
    Response(ResponseView),
}

pub open spec fn string_pairs_view(v: Seq<(String, String)>) -> Seq<(Seq<char>, Seq<char>)> {
    v.map_values(|p: (String, String)| (p.0@, p.1@))
}

impl View for HttpRequest {
    type V = RequestView;

    open spec fn view(&self) -> RequestView {
        RequestView {
            method: self.method@,
            path: self.path@,
            path_template: self.path_template@,
            headers: string_pairs_view(self.headers@),
            body: self.body@,
            captured_at: self.captured_at,
        }
    }
}

impl View for HttpResponse {
    type V = ResponseView;

    open spec fn view(&self) -> ResponseView {
        ResponseView {
            status: self.status,
            headers: string_pairs_view(self.headers@),
            body: self.body@,
            captured_at: self.captured_at,
        }
    }
}

impl View for HttpMessage {
    type V = MessageView;

    open spec fn view(&self) -> MessageView {
        match self {
            HttpMessage::Request(r) => MessageView::Request(r@),
            HttpMessage::Response(r) => MessageView::Response(r@),
        }
    }
}

// ---------------------------------------------------------------------------
// Message heads, as the httparse crate reads them
// ---------------------------------------------------------------------------

/// One header as httparse hands it out: the name, and the raw value bytes.
pub struct HeaderField {
    pub name: String,
    pub value: Vec<u8>,
}

impl View for HeaderField {
    type V = (Seq<char>, Seq<u8>);

    open spec fn view(&self) -> (Seq<char>, Seq<u8>) {
        (self.name@, self.value@)
    }
}

pub open spec fn header_fields_view(v: Seq<HeaderField>) -> Seq<(Seq<char>, Seq<u8>)> {
    v.map_values(|f: HeaderField| f@)
}

/// A complete request head: its length in bytes, method, target and headers.
pub struct RequestHead {
    pub header_len: usize,
    pub method: String,
    pub path: String,
    pub headers: Vec<HeaderField>,
}

/// A complete response head: its length in bytes, status code and headers.
pub struct ResponseHead {
    pub header_len: usize,
    pub status: u16,
    pub headers: Vec<HeaderField>,
}

/// What `httparse::Request::parse` (with room for 64 headers) reads from a
/// buffer when it finds a complete head: head length, method, target, headers.
/// `None` stands for a partial head or a parse error.
pub uninterp spec fn httparse_request(raw: Seq<u8>) -> Option<(nat, Seq<char>, Seq<char>, Seq<(Seq<char>, Seq<u8>)>)>;

/// What `httparse::Response::parse` (with room for 64 headers) reads from a
/// buffer when it finds a complete head: head length, status code, headers.
pub uninterp spec fn httparse_response(raw: Seq<u8>) -> Option<(nat, u16, Seq<(Seq<char>, Seq<u8>)>)>;

/// Runs `httparse::Request::parse` over `raw` with 64 header slots. Claimed:
/// the result is the named parse of `raw`, and a complete head is never empty
/// and never extends past the end of the buffer (httparse reports how many
/// bytes the head took, which include at least the request line).
#[verifier::external_body]
pub(crate) fn read_request_head(raw: &[u8]) -> (r: Option<RequestHead>)
    ensures
        match r {
            Some(h) => httparse_request(raw@) == Some(
                (h.header_len as nat, h.method@, h.path@, header_fields_view(h.headers@)),
            ) && 0 < h.header_len <= raw.len(),
            None => httparse_request(raw@) is None,
        },
{
    let mut headers = [httparse::EMPTY_HEADER; 64];
    let mut req = httparse::Request::new(&mut headers);
    match req.parse(raw) {
        Ok(httparse::Status::Complete(n)) => Some(RequestHead {
            header_len: n,
            method: req.method?.to_string(),
            path: req.path?.to_string(),
            headers: req.headers.iter().map(|h| HeaderField { name: h.name.to_string(), value: h.value.to_vec() }).collect(),
        }),
        _ => None,
    }
}

/// Runs `httparse::Response::parse` over `raw` with 64 header slots. Claimed:
/// the result is the named parse of `raw`, and a complete head is never empty
/// and never extends past the end of the buffer (the count includes at least
/// the status line).
#[verifier::external_body]
pub(crate) fn read_response_head(raw: &[u8]) -> (r: Option<ResponseHead>)
    ensures
        match r {
            Some(h) => httparse_response(raw@) == Some(
                (h.header_len as nat, h.status, header_fields_view(h.headers@)),
            ) && 0 < h.header_len <= raw.len(),
            None => httparse_response(raw@) is None,
        },
{
    let mut headers = [httparse::EMPTY_HEADER; 64];
    let mut res = httparse::Response::new(&mut headers);
    match res.parse(raw) {
        Ok(httparse::Status::Complete(n)) => Some(ResponseHead {
            header_len: n,
            status: res.code?,
            headers: res.headers.iter().map(|h| HeaderField { name: h.name.to_string(), value: h.value.to_vec() }).collect(),
        }),
        _ => None,
    }
}

// ---------------------------------------------------------------------------
// Parsing
// ---------------------------------------------------------------------------

/// A header as the library keeps it: lowercased name, value decoded lossily.
pub open spec fn normalized_header(f: (Seq<char>, Seq<u8>)) -> (Seq<char>, Seq<char>) {
    (unicode_lowercase(f.0), utf8_lossy(f.1))
}

pub open spec fn normalized_headers(hs: Seq<(Seq<char>, Seq<u8>)>) -> Seq<(Seq<char>, Seq<char>)> {
    hs.map_values(|f: (Seq<char>, Seq<u8>)| normalized_header(f))
}

/// The declared body length: the first `content-length` header, parsed as an
/// unsigned number; 0 when that header is absent or does not parse.
pub open spec fn declared_content_length(hs: Seq<(Seq<char>, Seq<char>)>) -> usize
    decreases hs.len(),
{
    if hs.len() == 0 {
        0
    } else if hs[0].0 == "content-length"@ {
        match parse_usize_spec(hs[0].1) {
            Some(v) => v,
            None => 0,
        }
    } else {
        declared_content_length(hs.drop_first())
    }
}

/// The body: up to `len` bytes after the head, cut short by the end of the buffer.
pub open spec fn body_after_head(raw: Seq<u8>, header_len: nat, len: nat) -> Seq<u8> {
    if header_len + len <= raw.len() {
        raw.subrange(header_len as int, (header_len + len) as int)
    } else {
        raw.subrange(header_len as int, raw.len() as int)
    }
}

/// The bytes start with `HTTP/`, which marks a response.
pub open spec fn starts_as_response(raw: Seq<u8>) -> bool {
    raw.len() >= 5 && raw[0] == 0x48u8 && raw[1] == 0x54u8 && raw[2] == 0x54u8 && raw[3] == 0x50u8
        && raw[4] == 0x2fu8
}

/// The request a head read from `raw` describes: method and target as read,
/// the target's template, headers lowercased and decoded, and the body the
/// declared content length covers, cut short by the end of `raw`.
pub open spec fn request_of_head(
    raw: Seq<u8>,
    header_len: nat,
    method: Seq<char>,
    path: Seq<char>,
    fields: Seq<(Seq<char>, Seq<u8>)>,
    captured_at: u64,
) -> RequestView {
    let headers = normalized_headers(fields);
    RequestView {
        method,
        path,
        path_template: templatized(path),
        headers,
        body: body_after_head(raw, header_len, declared_content_length(headers) as nat),
        captured_at,
    }
}

/// The response a head read from `raw` describes (see `request_of_head`).
pub open spec fn response_of_head(
    raw: Seq<u8>,
    header_len: nat,
    status: u16,
    fields: Seq<(Seq<char>, Seq<u8>)>,
    captured_at: u64,
) -> ResponseView {
    let headers = normalized_headers(fields);
    ResponseView {
        status,
        headers,
        body: body_after_head(raw, header_len, declared_content_length(headers) as nat),
        captured_at,
    }
}

pub open spec fn parsed_request(raw: Seq<u8>, captured_at: u64) -> Option<RequestView> {
    match httparse_request(raw) {
        Some((header_len, method, path, fields)) => Some(
            request_of_head(raw, header_len, method, path, fields, captured_at),
        ),
        None => None,
    }
}

pub open spec fn parsed_response(raw: Seq<u8>, captured_at: u64) -> Option<ResponseView> {
    match httparse_response(raw) {
        Some((header_len, status, fields)) => Some(response_of_head(raw, header_len, status, fields, captured_at)),
        None => None,
    }
}

/// A buffer that starts with `HTTP/` is read as a response, anything else as a request.
pub open spec fn parsed_message(raw: Seq<u8>, captured_at: u64) -> Option<MessageView> {
    if starts_as_response(raw) {
        match parsed_response(raw, captured_at) {
            Some(r) => Some(MessageView::Response(r)),
            None => None,
        }
    } else {
        match parsed_request(raw, captured_at) {
            Some(r) => Some(MessageView::Request(r)),
            None => None,
        }
    }
}

pub fn bytes_start_as_response(raw: &[u8]) -> (r: bool)
    ensures
        r == starts_as_response(raw@),
{
    raw.len() >= 5 && raw[0] == 0x48u8 && raw[1] == 0x54u8 && raw[2] == 0x54u8 && raw[3] == 0x50u8
        && raw[4] == 0x2fu8
}

/// Lowercases the names and decodes the values of httparse's headers.
pub fn normalize_header_fields(fields: &Vec<HeaderField>) -> (r: Vec<(String, String)>)
    ensures
        string_pairs_view(r@) == normalized_headers(header_fields_view(fields@)),
{
    let mut out: Vec<(String, String)> = Vec::new();
    let mut i: usize = 0;
    while i < fields.len()
        invariant
            i <= fields.len(),
            out.len() == i,
            forall|j: int|
                0 <= j < i ==> (#[trigger] out@[j]).0@ == unicode_lowercase(fields@[j].name@)
                    && out@[j].1@ == utf8_lossy(fields@[j].value@),
        decreases fields.len() - i,
    {
        let name = lowercase(fields[i].name.as_str());
        let value = lossy_string(fields[i].value.as_slice());
        out.push((name, value));
        i = i + 1;
    }
    assert(string_pairs_view(out@) =~= normalized_headers(header_fields_view(fields@)));
    out
}

/// The length the headers declare for the body (see `declared_content_length`).
pub fn content_length_of(headers: &Vec<(String, String)>) -> (r: usize)
    ensures
        r == declared_content_length(string_pairs_view(headers@)),
{
    let ghost hs = string_pairs_view(headers@);
    let mut i: usize = 0;
    assert(hs.skip(0) =~= hs);
    while i < headers.len()
        invariant
            i <= headers.len(),
            hs == string_pairs_view(headers@),
            declared_content_length(hs) == declared_content_length(hs.skip(i as int)),
        decreases headers.len() - i,
    {
        let ghost rest = hs.skip(i as int);
        assert(rest.drop_first() =~= hs.skip(i + 1));
        assert(rest[0] == (headers@[i as int].0@, headers@[i as int].1@));
        if str_eq(headers[i].0.as_str(), "content-length") {
            return match parse_usize(headers[i].1.as_str()) {
                Some(v) => v,
                None => 0,
            };
        }
        i = i + 1;
    }
    assert(hs.skip(i as int) =~= Seq::<(Seq<char>, Seq<char>)>::empty());
    0
}

/// The end of the body: `header_len + len`, cut short by the end of the buffer.
pub fn body_end(raw_len: usize, header_len: usize, len: usize) -> (r: usize)
    requires
        header_len <= raw_len,
    ensures
        header_len <= r <= raw_len,
        header_len + len <= raw_len ==> r == header_len + len,
        header_len + len > raw_len ==> r == raw_len,
{
    if len <= raw_len - header_len {
        header_len + len
    } else {
        raw_len
    }
}

fn parse_request(raw: &[u8], captured_at: u64) -> (r: Option<HttpRequest>)
    ensures
        match r {
            Some(req) => parsed_request(raw@, captured_at) == Some(req@),
            None => parsed_request(raw@, captured_at) is None,
        },
{
    match read_request_head(raw) {
        Some(head) => Some(request_from_head(raw, head, captured_at)),
        None => None,
    }
}

/// The request that a head httparse read from `raw` describes (see
/// `request_of_head`).
pub fn request_from_head(raw: &[u8], head: RequestHead, captured_at: u64) -> (r: HttpRequest)
    requires
        head.header_len <= raw.len(),
    ensures
        r@ == request_of_head(raw@, head.header_len as nat, head.method@, head.path@, header_fields_view(head.headers@), captured_at),
{
    let headers = normalize_header_fields(&head.headers);
    let len = content_length_of(&headers);
    let end = body_end(raw.len(), head.header_len, len);
    let body = slice_to_vec(slice_subrange(raw, head.header_len, end));
    let path_template = templatize_path(head.path.as_str());
    let req = HttpRequest {
        method: head.method,
        path: head.path,
        path_template,
        headers,
        body,
        captured_at,
    };
    req
}

fn parse_response(raw: &[u8], captured_at: u64) -> (r: Option<HttpResponse>)
    ensures
        match r {
            Some(res) => parsed_response(raw@, captured_at) == Some(res@),
            None => parsed_response(raw@, captured_at) is None,
        },
{
    match read_response_head(raw) {
        Some(head) => Some(response_from_head(raw, head, captured_at)),
        None => None,
    }
}

/// The response that a head httparse read from `raw` describes (see
/// `response_of_head`).
pub fn response_from_head(raw: &[u8], head: ResponseHead, captured_at: u64) -> (r: HttpResponse)
    requires
        head.header_len <= raw.len(),
    ensures
        r@ == response_of_head(raw@, head.header_len as nat, head.status, header_fields_view(head.headers@), captured_at),
{
    let headers = normalize_header_fields(&head.headers);
    let len = content_length_of(&headers);
    let end = body_end(raw.len(), head.header_len, len);
    let body = slice_to_vec(slice_subrange(raw, head.header_len, end));
    HttpResponse { status: head.status, headers, body, captured_at }
}

pub fn parse_http_message_at(raw: &[u8], captured_at: u64) -> (r: Option<HttpMessage>)
    ensures
        match r {
            Some(m) => parsed_message(raw@, captured_at) == Some(m@),
            None => parsed_message(raw@, captured_at) is None,
        },
{
    if bytes_start_as_response(raw) {
        match parse_response(raw, captured_at) {
            Some(res) => Some(HttpMessage::Response(res)),
            None => None,
        }
    } else {
        match parse_request(raw, captured_at) {
            Some(req) => Some(HttpMessage::Request(req)),
            None => None,
        }
    }
}

/// Parses one complete HTTP message, stamped with the current time.
/// What is returned is the parse of `raw` at some capture time.
pub fn parse_http_message(raw: &[u8]) -> (r: Option<HttpMessage>)
    ensures
        match r {
            Some(m) => parsed_message(raw@, m.captured_at()) == Some(m@),
            None => forall|t: u64| parsed_message(raw@, t) is None,
        },
{
    let now = crate::clock::now_micros();
    let r = parse_http_message_at(raw, now);
    proof {
        if r is None {
            assert forall|t: u64| parsed_message(raw@, t) is None by {
                lemma_parse_outcome_independent_of_time(raw@, now, t);
            }
        }
    }
    r
}

impl HttpMessage {
    pub open spec fn captured_at(&self) -> u64 {
        match self {
            HttpMessage::Request(r) => r.captured_at,
            HttpMessage::Response(r) => r.captured_at,
        }
    }
}

/// Whether a buffer parses does not depend on the capture time stamped on it.
pub proof fn lemma_parse_outcome_independent_of_time(raw: Seq<u8>, t1: u64, t2: u64)
    ensures
        (parsed_message(raw, t1) is Some) == (parsed_message(raw, t2) is Some),
{
}

// ---------------------------------------------------------------------------
// Path templates
// ---------------------------------------------------------------------------

/// The placeholder that stands for an identifier segment: `:id`.
pub open spec fn id_placeholder() -> Seq<char> {
    seq![':', 'i', 'd']
}

/// The dashes of a UUID's 8-4-4-4-12 layout stand at these positions.
pub open spec fn is_uuid_dash_position(j: int) -> bool {
    j == 8 || j == 13 || j == 18 || j == 23
}

/// A UUID in its text form: 36 characters, hex digits in groups of 8, 4, 4,
/// 4 and 12, separated by dashes.
pub open spec fn is_uuid(seg: Seq<char>) -> bool {
    &&& seg.len() == 36
    &&& forall|j: int|
        0 <= j < 36 ==> if is_uuid_dash_position(j) {
            #[trigger] seg[j] == '-'
        } else {
            is_ascii_hex_digit(seg[j])
        }
}

/// A path segment names a resource instance rather than an endpoint when it is
/// purely numeric, is a UUID, or is a hex string longer than 8 characters.
pub open spec fn is_id_segment(seg: Seq<char>) -> bool {
    ||| all_ascii_digits(seg)
    ||| is_uuid(seg)
    ||| (seg.len() > 8 && all_ascii_hex_digits(seg))
}

/// A non-empty identifier segment becomes `:id`; every other segment stays.
pub open spec fn template_segment(seg: Seq<char>) -> Seq<char> {
    if seg.len() == 0 {
        seg
    } else if is_id_segment(seg) {
        id_placeholder()
    } else {
        seg
    }
}

/// Templates `cur ++ rest` segment by segment, where `cur` is the part of the
/// current '/'-separated segment that has already been read.
pub open spec fn template_from(rest: Seq<char>, cur: Seq<char>) -> Seq<char>
    decreases rest.len(),
{
    if rest.len() == 0 {
        template_segment(cur)
    } else if rest[0] == '/' {
        template_segment(cur) + seq!['/'] + template_from(rest.drop_first(), Seq::empty())
    } else {
        template_from(rest.drop_first(), cur.push(rest[0]))
    }
}

/// The endpoint template of a request target: the query string is dropped and
/// every '/'-separated segment is passed through `template_segment`.
pub open spec fn templatized(path: Seq<char>) -> Seq<char> {
    template_from(prefix_before(path, '?'), Seq::empty())
}

proof fn lemma_prefix_before_take(s: Seq<char>, c: char, k: int)
    requires
        0 <= k <= s.len(),
        forall|j: int| 0 <= j < k ==> s[j] != c,
        k == s.len() || s[k] == c,
    ensures
        prefix_before(s, c) == s.take(k),
    decreases s.len(),
{
    if s.len() == 0 {
    } else if k == 0 {
    } else {
        lemma_prefix_before_take(s.drop_first(), c, k - 1);
        assert(seq![s[0]] + s.drop_first().take(k - 1) =~= s.take(k));
    }
}

fn segment_is_all(seg: &str, hex: bool) -> (r: bool)
    ensures
        hex ==> r == all_ascii_hex_digits(seg@),
        !hex ==> r == all_ascii_digits(seg@),
{
    let n = seg.unicode_len();
    let mut i: usize = 0;
    while i < n
        invariant
            n == seg@.len(),
            i <= n,
            hex ==> forall|j: int| 0 <= j < i ==> is_ascii_hex_digit(#[trigger] seg@[j]),
            !hex ==> forall|j: int| 0 <= j < i ==> is_ascii_digit(#[trigger] seg@[j]),
        decreases n - i,
    {
        let c = seg.get_char(i);
        let ok = if hex { char_is_ascii_hex_digit(c) } else { char_is_ascii_digit(c) };
        if !ok {
            return false;
        }
        i = i + 1;
    }
    true
}

fn segment_is_uuid(seg: &str) -> (r: bool)
    ensures
        r == is_uuid(seg@),
{
    let n = seg.unicode_len();
    if n != 36 {
        return false;
    }
    let mut i: usize = 0;
    while i < n
        invariant
            n == seg@.len(),
            n == 36,
            i <= n,
            forall|j: int|
                0 <= j < i ==> if is_uuid_dash_position(j) {
                    #[trigger] seg@[j] == '-'
                } else {
                    is_ascii_hex_digit(seg@[j])
                },
        decreases n - i,
    {
        let c = seg.get_char(i);
        let ok = if i == 8 || i == 13 || i == 18 || i == 23 {
            c == '-'
        } else {
            char_is_ascii_hex_digit(c)
        };
        if !ok {
            assert(!(if is_uuid_dash_position(i as int) {
                seg@[i as int] == '-'
            } else {
                is_ascii_hex_digit(seg@[i as int])
            }));
            return false;
        }
        i = i + 1;
    }
    true
}

/// Appends the template of one path segment to `out`.
fn push_template_segment(seg: &str, out: &mut String)
    ensures
        final(out)@ == old(out)@ + template_segment(seg@),
{
    if seg.unicode_len() == 0 {
        assert(old(out)@ + seg@ =~= old(out)@);
        return;
    }
    let digits = segment_is_all(seg, false);
    let uuid_like = segment_is_uuid(seg);
    let long_hex = seg.unicode_len() > 8 && segment_is_all(seg, true);
    let is_id = digits || uuid_like || long_hex;
    assert(is_id == is_id_segment(seg@));
    if is_id {
        proof {
            reveal_strlit(":id");
        }
        assert(":id"@ =~= id_placeholder());
        out.append(":id");
    } else {
        out.append(seg);
    }
}

/// Groups request targets by endpoint: drops the query string and replaces
/// identifier-like segments (numbers, UUIDs, long hex strings) with `:id`,
/// so `/users/123/posts/456?x=1` becomes `/users/:id/posts/:id`.
pub fn templatize_path(path: &str) -> (r: String)
    ensures
        r@ == templatized(path@),
{
    let n = path.unicode_len();
    let mut end: usize = 0;
    while end < n && path.get_char(end) != '?'
        invariant
            n == path@.len(),
            end <= n,
            forall|j: int| 0 <= j < end ==> path@[j] != '?',
        decreases n - end,
    {
        end = end + 1;
    }
    proof {
        lemma_prefix_before_take(path@, '?', end as int);
    }
    let ghost p = path@.take(end as int);
    let mut out = String::new();
    let mut start: usize = 0;
    let mut i: usize = 0;
    assert(p.subrange(0, end as int) =~= p);
    assert(p.subrange(0, 0) =~= Seq::<char>::empty());
    while i < end
        invariant
            n == path@.len(),
            end <= n,
            p == path@.take(end as int),
            templatized(path@) == template_from(p, Seq::empty()),
            start <= i <= end,
            out@ + template_from(p.subrange(i as int, end as int), p.subrange(start as int, i as int))
                == templatized(path@),
        decreases end - i,
    {
        let c = path.get_char(i);
        let ghost rest = p.subrange(i as int, end as int);
        assert(rest.drop_first() =~= p.subrange(i + 1, end as int));
        assert(rest[0] == c);
        if c == '/' {
            let seg = path.substring_char(start, i);
            assert(seg@ =~= p.subrange(start as int, i as int));
            push_template_segment(seg, &mut out);
            proof {
                reveal_strlit("/");
            }
            out.append("/");
            start = i + 1;
            assert(p.subrange(start as int, (i + 1) as int) =~= Seq::<char>::empty());
        } else {
            assert(p.subrange(start as int, i as int).push(c) =~= p.subrange(
                start as int,
                (i + 1) as int,
            ));
        }
        i = i + 1;
    }
    let seg = path.substring_char(start, end);
    assert(seg@ =~= p.subrange(start as int, end as int));
    assert(p.subrange(end as int, end as int) =~= Seq::<char>::empty());
    push_template_segment(seg, &mut out);
    out
}

// ---------------------------------------------------------------------------
// Law: identifiers do not split endpoints
// ---------------------------------------------------------------------------

proof fn lemma_template_without_slash(s: Seq<char>, cur: Seq<char>)
    requires
        !s.contains('/'),
    ensures
        template_from(s, cur) == template_segment(cur + s),
    decreases s.len(),
{
    if s.len() == 0 {
        assert(cur + s =~= cur);
    } else {
        assert(s[0] != '/') by {
            assert(s.contains(s[0]));
        }
        assert(!s.drop_first().contains('/')) by {
            if s.drop_first().contains('/') {
                let i = choose|i: int| 0 <= i < s.drop_first().len() && s.drop_first()[i] == '/';
                assert(s[i + 1] == '/');
            }
        }
        lemma_template_without_slash(s.drop_first(), cur.push(s[0]));
        assert(cur.push(s[0]) + s.drop_first() =~= cur + s);
    }
}

proof fn lemma_template_at_slash(a: Seq<char>, rest: Seq<char>, cur: Seq<char>)
    ensures
        template_from(a + seq!['/'] + rest, cur) == template_from(a, cur) + seq!['/'] + template_from(rest, Seq::empty()),
    decreases a.len(),
{
    let s = a + seq!['/'] + rest;
    if a.len() == 0 {
        assert(s[0] == '/');
        assert(s.drop_first() =~= rest);
    } else {
        assert(s[0] == a[0]);
        assert(s.drop_first() =~= a.drop_first() + seq!['/'] + rest);
        if a[0] == '/' {
            lemma_template_at_slash(a.drop_first(), rest, Seq::empty());
            assert(template_segment(cur) + seq!['/'] + (template_from(a.drop_first(), Seq::empty()) + seq!['/']
                + template_from(rest, Seq::empty())) =~= (template_segment(cur) + seq!['/'] + template_from(
                a.drop_first(),
                Seq::empty(),
            )) + seq!['/'] + template_from(rest, Seq::empty()));
        } else {
            lemma_template_at_slash(a.drop_first(), rest, cur.push(a[0]));
        }
    }
}

proof fn lemma_prefix_before_append(x: Seq<char>, y: Seq<char>, c: char)
    requires
        !x.contains(c),
    ensures
        prefix_before(x + y, c) == x + prefix_before(y, c),
    decreases x.len(),
{
    if x.len() == 0 {
        assert(x + y =~= y);
        assert(x + prefix_before(y, c) =~= prefix_before(y, c));
    } else {
        assert((x + y)[0] == x[0]);
        assert(x[0] != c) by {
            assert(x.contains(x[0]));
        }
        assert(!x.drop_first().contains(c)) by {
            if x.drop_first().contains(c) {
                let i = choose|i: int| 0 <= i < x.drop_first().len() && x.drop_first()[i] == c;
                assert(x[i + 1] == c);
            }
        }
        assert((x + y).drop_first() =~= x.drop_first() + y);
        lemma_prefix_before_append(x.drop_first(), y, c);
        assert(seq![x[0]] + (x.drop_first() + prefix_before(y, c)) =~= x + prefix_before(y, c));
    }
}

proof fn lemma_prefix_before_slash_or_empty(b: Seq<char>)
    requires
        b.len() == 0 || b[0] == '/' || b[0] == '?',
    ensures
        prefix_before(b, '?').len() == 0 || prefix_before(b, '?')[0] == '/',
{
}

/// The endpoint template of `a ++ seg ++ b`, where `seg` is a whole path
/// segment: `a` ends in `/`, and `b` is empty or starts a new segment or the
/// query string.
proof fn lemma_template_of_segment(a: Seq<char>, seg: Seq<char>, b: Seq<char>)
    requires
        a.len() > 0,
        a.last() == '/',
        !a.contains('?'),
        !seg.contains('/'),
        !seg.contains('?'),
        b.len() == 0 || b[0] == '/' || b[0] == '?',
    ensures
        templatized(a + seg + b) == {
            let q = prefix_before(b, '?');
            template_from(a.drop_last(), Seq::empty()) + seq!['/'] + template_segment(seg) + if q.len() == 0 {
                Seq::empty()
            } else {
                seq!['/'] + template_from(q.drop_first(), Seq::empty())
            }
        },
{
    let q = prefix_before(b, '?');
    assert(!(a + seg).contains('?')) by {
        if (a + seg).contains('?') {
            let i = choose|i: int| 0 <= i < (a + seg).len() && (a + seg)[i] == '?';
            if i < a.len() {
                assert(a[i] == '?');
            } else {
                assert(seg[i - a.len()] == '?');
            }
        }
    }
    assert(a + seg + b =~= (a + seg) + b);
    lemma_prefix_before_append(a + seg, b, '?');
    lemma_prefix_before_slash_or_empty(b);
    let a0 = a.drop_last();
    if q.len() == 0 {
        assert((a + seg) + q =~= a0 + seq!['/'] + seg);
        lemma_template_at_slash(a0, seg, Seq::empty());
        lemma_template_without_slash(seg, Seq::empty());
        assert(Seq::<char>::empty() + seg =~= seg);
        assert(template_from(a0, Seq::empty()) + seq!['/'] + template_segment(seg) + Seq::<char>::empty()
            =~= template_from(a0, Seq::empty()) + seq!['/'] + template_segment(seg));
    } else {
        let q1 = q.drop_first();
        assert((a + seg) + q =~= a0 + seq!['/'] + (seg + seq!['/'] + q1));
        lemma_template_at_slash(a0, seg + seq!['/'] + q1, Seq::empty());
        lemma_template_at_slash(seg, q1, Seq::empty());
        lemma_template_without_slash(seg, Seq::empty());
        assert(Seq::<char>::empty() + seg =~= seg);
        assert(template_from(a0, Seq::empty()) + seq!['/'] + (template_segment(seg) + seq!['/'] + template_from(
            q1,
            Seq::empty(),
        )) =~= template_from(a0, Seq::empty()) + seq!['/'] + template_segment(seg) + (seq!['/'] + template_from(
            q1,
            Seq::empty(),
        )));
    }
}

proof fn lemma_id_segment_is_plain(seg: Seq<char>)
    requires
        is_id_segment(seg),
    ensures
        !seg.contains('/'),
        !seg.contains('?'),
{
    assert forall|i: int| 0 <= i < seg.len() implies seg[i] != '/' && seg[i] != '?' by {
        if all_ascii_digits(seg) {
            assert(is_ascii_digit(seg[i]));
        } else if is_uuid(seg) {
            if is_uuid_dash_position(i) {
                assert(seg[i] == '-');
            } else {
                assert(is_ascii_hex_digit(seg[i]));
            }
        } else {
            assert(is_ascii_hex_digit(seg[i]));
        }
    }
}

/// Requests for the same resource path with different identifiers belong to
/// the same endpoint: two paths that differ only in one whole segment, where
/// both versions of that segment are identifiers (numbers, UUIDs, long hex
/// strings), have the same template.
pub proof fn law_identifiers_share_a_template(a: Seq<char>, id1: Seq<char>, id2: Seq<char>, b: Seq<char>)
    requires
        a.len() > 0,
        a.last() == '/',
        !a.contains('?'),
        id1.len() > 0 && is_id_segment(id1),
        id2.len() > 0 && is_id_segment(id2),
        b.len() == 0 || b[0] == '/' || b[0] == '?',
    ensures
        templatized(a + id1 + b) == templatized(a + id2 + b),
{
    lemma_id_segment_is_plain(id1);
    lemma_id_segment_is_plain(id2);
    lemma_template_of_segment(a, id1, b);
    lemma_template_of_segment(a, id2, b);
}

/// How often `c` occurs in `s`.
pub open spec fn count_char(s: Seq<char>, c: char) -> nat
    decreases s.len(),
{
    if s.len() == 0 {
        0
    } else {
        (if s[0] == c { 1nat } else { 0nat }) + count_char(s.drop_first(), c)
    }
}

proof fn lemma_count_char_add(a: Seq<char>, b: Seq<char>, c: char)
    ensures
        count_char(a + b, c) == count_char(a, c) + count_char(b, c),
    decreases a.len(),
{
    if a.len() == 0 {
        assert(a + b =~= b);
    } else {
        assert((a + b)[0] == a[0]);
        assert((a + b).drop_first() =~= a.drop_first() + b);
        lemma_count_char_add(a.drop_first(), b, c);
    }
}

proof fn lemma_count_char_absent(s: Seq<char>, c: char)
    requires
        !s.contains(c),
    ensures
        count_char(s, c) == 0,
    decreases s.len(),
{
    if s.len() > 0 {
        assert(s[0] != c) by {
            assert(s.contains(s[0]));
        }
        assert(!s.drop_first().contains(c)) by {
            if s.drop_first().contains(c) {
                let i = choose|i: int| 0 <= i < s.drop_first().len() && s.drop_first()[i] == c;
                assert(s[i + 1] == c);
            }
        }
        lemma_count_char_absent(s.drop_first(), c);
    }
}

/// A segment's template holds no `/` or `?` its segment did not, and
/// templating it again changes nothing: `:id` is no identifier.
proof fn lemma_template_segment_stable(seg: Seq<char>)
    requires
        !seg.contains('/'),
        !seg.contains('?'),
    ensures
        !template_segment(seg).contains('/'),
        !template_segment(seg).contains('?'),
        template_segment(template_segment(seg)) == template_segment(seg),
{
    if seg.len() > 0 && is_id_segment(seg) {
        let t = id_placeholder();
        assert(t[0] == ':');
        assert(!is_ascii_digit(t[0]) && !is_ascii_hex_digit(t[0]));
        assert(!all_ascii_digits(t));
        assert(!all_ascii_hex_digits(t));
        assert(!is_uuid(t));
        assert(!t.contains('/')) by {
            if t.contains('/') {
                let i = choose|i: int| 0 <= i < t.len() && t[i] == '/';
                assert(i == 0 || i == 1 || i == 2);
            }
        }
        assert(!t.contains('?')) by {
            if t.contains('?') {
                let i = choose|i: int| 0 <= i < t.len() && t[i] == '?';
                assert(i == 0 || i == 1 || i == 2);
            }
        }
    }
}

proof fn lemma_template_from_stable(rest: Seq<char>, cur: Seq<char>)
    requires
        !rest.contains('?'),
        !cur.contains('/'),
        !cur.contains('?'),
    ensures
        !template_from(rest, cur).contains('?'),
        count_char(template_from(rest, cur), '/') == count_char(rest, '/'),
        template_from(template_from(rest, cur), Seq::empty()) == template_from(rest, cur),
    decreases rest.len(),
{
    let o = template_from(rest, cur);
    if rest.len() == 0 {
        lemma_template_segment_stable(cur);
        lemma_template_without_slash(o, Seq::empty());
        assert(Seq::<char>::empty() + o =~= o);
        lemma_count_char_absent(o, '/');
    } else {
        let r1 = rest.drop_first();
        assert(!r1.contains('?')) by {
            if r1.contains('?') {
                let i = choose|i: int| 0 <= i < r1.len() && r1[i] == '?';
                assert(rest[i + 1] == '?');
            }
        }
        assert(rest[0] != '?') by {
            assert(rest.contains(rest[0]));
        }
        if rest[0] == '/' {
            lemma_template_from_stable(r1, Seq::empty());
            let a = template_segment(cur);
            let b = template_from(r1, Seq::empty());
            lemma_template_segment_stable(cur);
            assert(o == a + seq!['/'] + b);
            assert(!o.contains('?')) by {
                if o.contains('?') {
                    let i = choose|i: int| 0 <= i < o.len() && o[i] == '?';
                    if i < a.len() {
                        assert(a[i] == '?');
                    } else if i > a.len() {
                        assert(b[i - a.len() - 1] == '?');
                    }
                }
            }
            lemma_count_char_add(a + seq!['/'], b, '/');
            lemma_count_char_add(a, seq!['/'], '/');
            lemma_count_char_absent(a, '/');
            assert(seq!['/'].drop_first() =~= Seq::<char>::empty());
            assert(count_char(Seq::<char>::empty(), '/') == 0);
            assert(count_char(seq!['/'], '/') == 1);
            assert(count_char(rest, '/') == 1 + count_char(r1, '/'));
            assert(count_char(o, '/') == count_char(a, '/') + count_char(seq!['/'], '/') + count_char(b, '/'));
            lemma_template_at_slash(a, b, Seq::empty());
            lemma_template_without_slash(a, Seq::empty());
            assert(Seq::<char>::empty() + a =~= a);
        } else {
            assert(!cur.push(rest[0]).contains('/')) by {
                if cur.push(rest[0]).contains('/') {
                    let i = choose|i: int| 0 <= i < cur.push(rest[0]).len() && cur.push(rest[0])[i] == '/';
                    if i < cur.len() {
                        assert(cur[i] == '/');
                    }
                }
            }
            assert(!cur.push(rest[0]).contains('?')) by {
                if cur.push(rest[0]).contains('?') {
                    let i = choose|i: int| 0 <= i < cur.push(rest[0]).len() && cur.push(rest[0])[i] == '?';
                    if i < cur.len() {
                        assert(cur[i] == '?');
                    }
                }
            }
            lemma_template_from_stable(r1, cur.push(rest[0]));
            assert(count_char(rest, '/') == count_char(r1, '/'));
        }
    }
}

/// An endpoint template has no query string, as many `/` (so as many
/// segments) as the path before its query string, and is its own template.
pub proof fn law_templates_are_stable(path: Seq<char>)
    ensures
        !templatized(path).contains('?'),
        count_char(templatized(path), '/') == count_char(prefix_before(path, '?'), '/'),
        templatized(templatized(path)) == templatized(path),
{
    let p = prefix_before(path, '?');
    lemma_prefix_before_plain(path);
    lemma_template_from_stable(p, Seq::empty());
    let t = templatized(path);
    lemma_prefix_before_whole(t);
}

proof fn lemma_prefix_before_plain(s: Seq<char>)
    ensures
        !prefix_before(s, '?').contains('?'),
    decreases s.len(),
{
    if s.len() > 0 && s[0] != '?' {
        lemma_prefix_before_plain(s.drop_first());
        let r = prefix_before(s.drop_first(), '?');
        assert(prefix_before(s, '?') == seq![s[0]] + r);
        if (seq![s[0]] + r).contains('?') {
            let i = choose|i: int| 0 <= i < (seq![s[0]] + r).len() && (seq![s[0]] + r)[i] == '?';
            if i > 0 {
                assert(r[i - 1] == '?');
            }
        }
    }
}

proof fn lemma_prefix_before_whole(s: Seq<char>)
    requires
        !s.contains('?'),
    ensures
        prefix_before(s, '?') == s,
{
    assert forall|j: int| 0 <= j < s.len() implies s[j] != '?' by {
        assert(s.contains(s[j]) ==> s[j] != '?');
        if s[j] == '?' {
            assert(s.contains(s[j]));
        }
    }
    lemma_prefix_before_take(s, '?', s.len() as int);
    assert(s.take(s.len() as int) =~= s);
}

/// A segment laid out as a UUID, 8-4-4-4-12 ASCII hex digits of either case
/// separated by dashes, is an identifier: its template is `:id`, so paths
/// that differ only in which UUID (or in the case of its letters) they name
/// belong to the same endpoint.
pub proof fn law_uuids_of_either_case_are_identifiers(a: Seq<char>, u1: Seq<char>, u2: Seq<char>, b: Seq<char>)
    requires
        u1.len() == 36,
        u2.len() == 36,
        forall|j: int|
            0 <= j < 36 ==> if j == 8 || j == 13 || j == 18 || j == 23 {
                #[trigger] u1[j] == '-'
            } else {
                ('0' <= u1[j] <= '9') || ('a' <= u1[j] <= 'f') || ('A' <= u1[j] <= 'F')
            },
        forall|j: int|
            0 <= j < 36 ==> if j == 8 || j == 13 || j == 18 || j == 23 {
                #[trigger] u2[j] == '-'
            } else {
                ('0' <= u2[j] <= '9') || ('a' <= u2[j] <= 'f') || ('A' <= u2[j] <= 'F')
            },
        a.len() > 0,
        a.last() == '/',
        !a.contains('?'),
        b.len() == 0 || b[0] == '/' || b[0] == '?',
    ensures
        template_segment(u1) == seq![':', 'i', 'd'],
        templatized(a + u1 + b) == templatized(a + u2 + b),
{
    assert(is_uuid(u1)) by {
        assert forall|j: int| 0 <= j < 36 implies if is_uuid_dash_position(j) {
            #[trigger] u1[j] == '-'
        } else {
            is_ascii_hex_digit(u1[j])
        } by {}
    }
    assert(is_uuid(u2)) by {
        assert forall|j: int| 0 <= j < 36 implies if is_uuid_dash_position(j) {
            #[trigger] u2[j] == '-'
        } else {
            is_ascii_hex_digit(u2[j])
        } by {}
    }
    law_identifiers_share_a_template(a, u1, u2, b);
}

} // verus!
